use grit_commands::message::{
    append_commented_line, append_verbose_cut_line, apply_cleanup_message,
    auto_comment_prefix_for_message, cleanup_edited_commit_message,
    cleanup_edited_commit_message_bytes, cleanup_message_bytes, ensure_trailing_newline,
    first_line, git_vertical_stripspace, git_vertical_stripspace_bytes,
    message_after_first_line, message_body_after_subject, message_is_empty_or_signedoff_only,
    raw_to_message_result, replace_editmsg_user_message, replace_editmsg_user_text,
    rest_is_empty_signedoff_only, skip_blank_lines, template_untouched,
    truncate_at_verbose_cutoff, wt_status_locate_end, CommitMsgCleanupMode,
};

#[test]
fn cleanup_drops_comments_and_collapses_blank_lines() {
    let msg = "\n\nSubject  \n# comment\n\n\n\nBody line\t\n\n";
    assert_eq!(cleanup_edited_commit_message(msg, "#"), "Subject\n\nBody line\n");
}

#[test]
fn cleanup_with_empty_prefix_drops_everything() {
    assert_eq!(cleanup_edited_commit_message("a\nb\n", ""), "");
}

#[test]
fn cleanup_keeps_last_line_without_newline() {
    assert_eq!(cleanup_edited_commit_message("one\ntwo", ";"), "one\ntwo\n");
}

#[test]
fn cleanup_is_idempotent_on_example() {
    let once = cleanup_edited_commit_message("  \nA \n\n\nB\n# x\n", "#");
    assert_eq!(once, "A\n\nB\n");
    assert_eq!(cleanup_edited_commit_message(&once, "#"), once);
}

#[test]
fn cleanup_bytes_keeps_invalid_utf8() {
    let bytes = b"caf\xe9  \n#note\n\n\nend\n".to_vec();
    assert_eq!(
        cleanup_edited_commit_message_bytes(&bytes, b"#"),
        b"caf\xe9\n\nend\n".to_vec()
    );
}

#[test]
fn cleanup_bytes_with_empty_prefix_keeps_lines() {
    assert_eq!(cleanup_edited_commit_message_bytes(b"#a\n", b""), b"#a\n".to_vec());
}

#[test]
fn vertical_stripspace_trims_ends() {
    assert_eq!(git_vertical_stripspace("\r\n\nhello \n world\t \n\n"), "hello \n world");
    assert_eq!(git_vertical_stripspace(""), "");
    assert_eq!(git_vertical_stripspace("  x"), "  x");
}

#[test]
fn vertical_stripspace_bytes_trims_ends() {
    assert_eq!(git_vertical_stripspace_bytes(b"\n\nab \t\r\n"), b"ab".to_vec());
}

#[test]
fn vertical_stripspace_is_idempotent_on_example() {
    let once = git_vertical_stripspace("\n x \n");
    assert_eq!(git_vertical_stripspace(&once), once);
}

#[test]
fn first_line_trims_trailing_space() {
    assert_eq!(first_line("Subject  \nbody\n"), "Subject");
    assert_eq!(first_line(""), "");
    assert_eq!(first_line("only\r\n"), "only");
}

#[test]
fn body_after_subject_needs_blank_line() {
    assert_eq!(message_body_after_subject("subj\n\nbody\n"), "body\n");
    assert_eq!(message_body_after_subject("subj\nbody\n"), "");
}

#[test]
fn skip_blank_lines_drops_leading_newlines() {
    assert_eq!(skip_blank_lines("\n\n\nx\n"), "x\n");
    assert_eq!(skip_blank_lines(" \nx"), " \nx");
}

#[test]
fn after_first_line_splits_at_newline() {
    assert_eq!(message_after_first_line("a\nb\nc"), "b\nc");
    assert_eq!(message_after_first_line("abc"), "");
}

#[test]
fn trailing_newline_added_once() {
    assert_eq!(ensure_trailing_newline("x"), "x\n");
    assert_eq!(ensure_trailing_newline("x\n"), "x\n");
    assert_eq!(ensure_trailing_newline(""), "");
    assert_eq!(ensure_trailing_newline(&ensure_trailing_newline("y")), "y\n");
}

#[test]
fn signedoff_only_detection() {
    assert!(message_is_empty_or_signedoff_only("\n  Signed-off-by: A <a@b>\n\n"));
    assert!(!message_is_empty_or_signedoff_only("\n\n"));
    assert!(!message_is_empty_or_signedoff_only("Fix\nSigned-off-by: A <a@b>\n"));
}

#[test]
fn scissors_cut() {
    let cut = "# ------------------------ >8 ------------------------\n";
    let msg = format!("subject\n{cut}diff\n");
    assert_eq!(truncate_at_verbose_cutoff(&msg, "#"), "subject\n");
    assert_eq!(wt_status_locate_end(&msg, "#"), 8);
    assert_eq!(truncate_at_verbose_cutoff(cut, "#"), "");
    assert_eq!(wt_status_locate_end(cut, "#"), 0);
    assert_eq!(truncate_at_verbose_cutoff("plain", "#"), "plain");
}

#[test]
fn scissors_offset_counts_bytes() {
    let cut = "# ------------------------ >8 ------------------------\n";
    let msg = format!("é\n{cut}");
    assert_eq!(wt_status_locate_end(&msg, "#"), 3);
}

#[test]
fn apply_cleanup_modes() {
    let cut = "# ------------------------ >8 ------------------------\n";
    let msg = format!("Subject \n# c\n\n{cut}tail\n");
    assert_eq!(
        apply_cleanup_message(&msg, 0, "#", CommitMsgCleanupMode::Verbatim),
        msg.clone()
    );
    assert_eq!(
        apply_cleanup_message(&msg, 1, "#", CommitMsgCleanupMode::All),
        "Subject\n"
    );
    assert_eq!(
        apply_cleanup_message(&msg, 0, "#", CommitMsgCleanupMode::Scissors),
        "Subject \n# c"
    );
    assert_eq!(
        apply_cleanup_message("\n x \n\n", 0, "#", CommitMsgCleanupMode::Space),
        " x"
    );
}

#[test]
fn cleanup_bytes_modes_add_newline() {
    assert_eq!(
        cleanup_message_bytes(b"abc", b"#", CommitMsgCleanupMode::Verbatim),
        b"abc\n".to_vec()
    );
    assert_eq!(
        cleanup_message_bytes(b"\n\nabc \n", b"#", CommitMsgCleanupMode::Space),
        b"abc\n".to_vec()
    );
    assert_eq!(
        cleanup_message_bytes(b"#x\n", b"#", CommitMsgCleanupMode::All),
        Vec::<u8>::new()
    );
}

#[test]
fn commented_lines() {
    let mut buf = String::from("x\n");
    append_commented_line(&mut buf, "#", "hello");
    append_commented_line(&mut buf, "#", "");
    append_commented_line(&mut buf, ";", "\tindented\n");
    assert_eq!(buf, "x\n# hello\n#\n;\tindented\n");
}

#[test]
fn verbose_cut_block() {
    let mut buf = String::new();
    append_verbose_cut_line(&mut buf, "#");
    assert_eq!(
        buf,
        "# ------------------------ >8 ------------------------\n\
         # Do not modify or remove the line above.\n\
         # Everything below it will be ignored.\n"
    );
}

#[test]
fn auto_comment_character() {
    assert_eq!(auto_comment_prefix_for_message("# a\n; b\nc\n"), Some("@".to_string()));
    assert_eq!(auto_comment_prefix_for_message("plain"), Some("#".to_string()));
    assert_eq!(auto_comment_prefix_for_message("#\n;\n@\n!\n$\n%\n^\n&\n|\n:\n"), None);
}

#[test]
fn rest_signedoff_by_byte_offset() {
    let s = "Title\n\nSigned-off-by: A <a@b>\n";
    assert!(rest_is_empty_signedoff_only(s, 6));
    assert!(!rest_is_empty_signedoff_only(s, 0));
    assert!(rest_is_empty_signedoff_only(s, 1000));
    assert!(rest_is_empty_signedoff_only("é", 1));
}

#[test]
fn template_checks() {
    assert!(template_untouched("tmpl\n\nSigned-off-by: X <x@y>\n", Some("tmpl\n"), "#", CommitMsgCleanupMode::All));
    assert!(!template_untouched("tmpl\nchanged\n", Some("tmpl\n"), "#", CommitMsgCleanupMode::All));
    assert!(!template_untouched("tmpl\n", None, "#", CommitMsgCleanupMode::All));
}

#[test]
fn editmsg_restore() {
    let prev = "old message\n# Please enter\n# more\n";
    assert_eq!(replace_editmsg_user_text(prev, "new", "#"), "new\n\n# Please enter\n# more\n");
    assert_eq!(replace_editmsg_user_text("no comments\n", "new", "#"), "new\n");
    assert_eq!(
        replace_editmsg_user_message(prev.as_bytes(), "new\n\n", "#"),
        b"new\n\n# Please enter\n# more\n".to_vec()
    );
    assert_eq!(replace_editmsg_user_message(b"\xff\xfe", "new", "#"), b"\xff\xfe".to_vec());
}

#[test]
fn message_from_raw_bytes() {
    let r = raw_to_message_result(b"hi".to_vec());
    assert_eq!(r.message, "hi\n");
    assert_eq!(r.raw_bytes, Some(b"hi\n".to_vec()));
    assert!(!r.from_merge_msg);
    let bad = raw_to_message_result(b"a\xffb\n".to_vec());
    assert_eq!(bad.message, "a\u{FFFD}b\n");
    assert_eq!(bad.raw_bytes, Some(b"a\xffb\n".to_vec()));
}

#[test]
fn cleanup_twice_is_cleanup_once() {
    let msgs = [
        "\n\n  subject  \n\n\n# comment\nbody line\t\n\n\n",
        "only\n# gone\n\n\nlast",
        "",
        "# all\n# comments\n",
    ];
    for m in msgs.iter() {
        let once = cleanup_edited_commit_message(m, "#");
        assert_eq!(cleanup_edited_commit_message(&once, "#"), once);
    }
    // a prefix holding a line break is where cleaning again can still change the text
    let once = cleanup_edited_commit_message("x \n", "x\n");
    assert_eq!(once, "x\n");
    assert_eq!(cleanup_edited_commit_message(&once, "x\n"), "");
}

#[test]
fn cleanup_twice_with_prefix_holding_inner_line_break() {
    let once = cleanup_edited_commit_message("a\nb  \n\n\n#x\n", "a\nb");
    assert_eq!(once, "a\nb\n\n#x\n");
    assert_eq!(cleanup_edited_commit_message(&once, "a\nb"), once);
}

#[test]
fn byte_cleanup_of_text_agrees_with_text_cleanup() {
    let msg = "\n  \ncaf\u{e9} \t\n# gone\n\n\n\u{2014} body\u{a0}\n\n";
    let text = cleanup_edited_commit_message(msg, "#");
    assert_eq!(text, "caf\u{e9}\n\n\u{2014} body\u{a0}\n");
    assert_eq!(cleanup_edited_commit_message_bytes(msg.as_bytes(), b"#"), text.into_bytes());
    let wide = "\u{e9}\u{e9} x\n\u{e9} y\n";
    assert_eq!(
        cleanup_edited_commit_message_bytes(wide.as_bytes(), "\u{e9}\u{e9}".as_bytes()),
        cleanup_edited_commit_message(wide, "\u{e9}\u{e9}").into_bytes()
    );
}

#[test]
fn byte_vertical_cleanup_of_text_agrees_with_text_form() {
    let s = "\r\n\n\u{e9}t\u{e9} \n \t\r\n";
    assert_eq!(git_vertical_stripspace(s), "\u{e9}t\u{e9}");
    assert_eq!(git_vertical_stripspace_bytes(s.as_bytes()), git_vertical_stripspace(s).into_bytes());
}

#[test]
fn scissors_block_cut_gives_message_back() {
    for m in ["", "subject\n\nbody\n", "# not scissors\n"] {
        let mut buf = m.to_string();
        append_verbose_cut_line(&mut buf, "#");
        buf.push_str("diff --git a/x b/x\n");
        assert_eq!(truncate_at_verbose_cutoff(&buf, "#"), m);
        assert_eq!(wt_status_locate_end(&buf, "#"), m.len());
    }
}
