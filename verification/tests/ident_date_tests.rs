use grit_commands::date::{format_git_timestamp, format_normal_date, format_normal_date_fields, parse_date_to_git_timestamp};
use grit_commands::ident::{
    author_env_for_commit_hooks, ident_name_email, is_epoch_with_tz, parse_force_author_parameter,
    parse_tz_hhmm, split_stored_author_line, validate_amend_source_author, validate_ident_name,
    bump_ident_unix_seconds,
};

#[test]
fn stored_author_line_parts() {
    assert_eq!(
        split_stored_author_line("A U Thor  <a@example.com> 1112911993 -0700"),
        Ok(("A U Thor".to_string(), "a@example.com".to_string(), Some("1112911993 -0700".to_string())))
    );
    assert_eq!(
        split_stored_author_line("Name < e >"),
        Ok(("Name".to_string(), "e".to_string(), None))
    );
    assert_eq!(split_stored_author_line("no brackets"), Err("malformed author line".to_string()));
    assert_eq!(split_stored_author_line("x > y <"), Err("malformed author line".to_string()));
}

#[test]
fn hook_environment() {
    let env = author_env_for_commit_hooks("A <a@b> 5 +0000").unwrap();
    assert_eq!(
        env,
        vec![
            ("GIT_AUTHOR_NAME".to_string(), "A".to_string()),
            ("GIT_AUTHOR_EMAIL".to_string(), "a@b".to_string()),
            ("GIT_AUTHOR_DATE".to_string(), "@5 +0000".to_string()),
        ]
    );
    assert_eq!(author_env_for_commit_hooks("A <a@b>").unwrap().len(), 2);
    assert!(author_env_for_commit_hooks("bad").is_err());
}

#[test]
fn ident_names() {
    assert_eq!(validate_ident_name("Jane", "author"), Ok(()));
    assert_eq!(
        validate_ident_name("", "committer"),
        Err("empty ident name (for <committer>) not allowed".to_string())
    );
    assert_eq!(validate_ident_name(". ,", "author"), Err("invalid ident name: '. ,'".to_string()));
}

#[test]
fn forced_author() {
    assert_eq!(
        parse_force_author_parameter("  Jane Doe <jane@x.org>"),
        Ok(("Jane Doe".to_string(), "jane@x.org".to_string()))
    );
    assert_eq!(parse_force_author_parameter("Jane <>"), Ok(("Jane".to_string(), String::new())));
    assert_eq!(
        parse_force_author_parameter("Jane<j@x>"),
        Err("malformed --author parameter".to_string())
    );
    assert_eq!(
        parse_force_author_parameter(" <j@x>"),
        Err("empty ident name (for <author>) not allowed".to_string())
    );
    assert_eq!(parse_force_author_parameter("Jane"), Err("malformed --author parameter".to_string()));
}

#[test]
fn amend_author_checks() {
    assert_eq!(validate_amend_source_author("A <a@b> 1 +0000"), Ok(()));
    assert_eq!(
        validate_amend_source_author("A <a@b>"),
        Err("empty ident name (for <author>) not allowed".to_string())
    );
    assert_eq!(
        validate_amend_source_author("A a@b"),
        Err("commit has malformed author line".to_string())
    );
    assert_eq!(validate_amend_source_author("... <a@b> 1 +0000"), Err("invalid ident name: '...'".to_string()));
}

#[test]
fn time_zones() {
    assert_eq!(parse_tz_hhmm("+0530"), Some(530));
    assert_eq!(parse_tz_hhmm("-0700"), Some(-700));
    assert_eq!(parse_tz_hhmm("0700"), None);
    assert_eq!(parse_tz_hhmm("+07x0"), None);
    assert_eq!(parse_tz_hhmm("+07000"), None);
    assert!(is_epoch_with_tz("1234567890 +0100"));
    assert!(is_epoch_with_tz("  12 -0000 "));
    assert!(!is_epoch_with_tz("12 +0100 x"));
    assert!(!is_epoch_with_tz("1a +0100"));
    assert!(!is_epoch_with_tz("12"));
    assert!(!is_epoch_with_tz("x1 \u{e9}0000"));
}

#[test]
fn name_and_email() {
    assert_eq!(ident_name_email("A U Thor  <a@b.c> 1 +0000"), "A U Thor <a@b.c>");
    assert_eq!(ident_name_email("plain"), "plain");
    assert_eq!(ident_name_email("x > <"), "x > <");
}

#[test]
fn normal_dates() {
    assert_eq!(
        format_normal_date("A <a@b> 1112911993 -0700"),
        "Thu Apr 7 15:13:13 2005 -0700"
    );
    assert_eq!(format_normal_date("A <a@b> 0 +0000"), "Thu Jan 1 00:00:00 1970 +0000");
    assert_eq!(format_normal_date("A <a@b> now +0000"), "now +0000");
    assert_eq!(format_normal_date("nospace"), "");
    assert_eq!(format_normal_date("A <a> x \u{e9}0000"), "x \u{e9}0000");
    assert_eq!(format_normal_date_fields((2024, 2, 29, 9, 5, 7, 3), "+0100"), "Thu Feb 29 09:05:07 2024 +0100");
}

#[test]
fn git_timestamps() {
    assert_eq!(format_git_timestamp(1700000000, 5, 30), "1700000000 +0530");
    assert_eq!(format_git_timestamp(-5, -8, 0), "-5 -0800");
    assert_eq!(format_git_timestamp(0, 0, -30), "0 +0030");
}

#[test]
fn command_line_dates() {
    assert_eq!(
        parse_date_to_git_timestamp("2005-04-07T22:13:13+02:00", None).as_deref(),
        Some("1112904793 +0200")
    );
    assert_eq!(
        parse_date_to_git_timestamp("  2020-01-01T00:00:00 ", None).as_deref(),
        Some("1577836800 +0000")
    );
    assert_eq!(
        parse_date_to_git_timestamp("2005-04-07T22:13:13-00:30", None).as_deref(),
        Some("1112913793 +0030")
    );
    assert_eq!(parse_date_to_git_timestamp("1234567890 +0100", Some("x".to_string())), None);
    assert_eq!(
        parse_date_to_git_timestamp("2006-06-26 00:04:00 +0000", None).as_deref(),
        Some("1151280240 +0000")
    );
    assert_eq!(
        parse_date_to_git_timestamp("2006-06-26 00:04:00 -0130", None).as_deref(),
        Some("1151285640 -0130")
    );
    assert_eq!(parse_date_to_git_timestamp("@1234 +0000", None).as_deref(), Some("1234 +0000"));
    assert_eq!(
        parse_date_to_git_timestamp("yesterday", Some("1700000000 +0000".to_string())).as_deref(),
        Some("1700000000 +0000")
    );
    assert_eq!(parse_date_to_git_timestamp("yesterday", None), None);
}

#[test]
fn identity_time_moves_forward() {
    let id = "C O Mitter <c@example.com>  1112911993 -0700";
    let tz = id.find("-0700").unwrap();
    assert_eq!(
        bump_ident_unix_seconds(id, Some((1112911993, tz, tz + 5))),
        Ok("C O Mitter <c@example.com>  1112911994 -0700".to_string())
    );
    assert_eq!(bump_ident_unix_seconds(id, None), Ok(id.to_string()));
    assert_eq!(
        bump_ident_unix_seconds("x <y> 9223372036854775807 +0000", Some((i64::MAX, 26, 31))),
        Ok("x <y> 9223372036854775807 +0000".to_string())
    );
    assert_eq!(
        bump_ident_unix_seconds("no brackets 5 +0000", Some((5, 14, 19))),
        Err("malformed identity line (missing '>'): no brackets 5 +0000".to_string())
    );
    assert_eq!(
        bump_ident_unix_seconds("é <e> 5 +0000", Some((5, 1, 3))),
        Err("malformed identity timezone in: é <e> 5 +0000".to_string())
    );
}
