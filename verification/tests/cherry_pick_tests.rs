use grit_commands::cherry_pick::{
    incompatible_pick_flag, merge_sequencer_opts, parse_checkout_moving_message,
    parse_strategy_options, parse_todo_pick_line, first_invalid_todo_line, preprocess_cherry_pick_argv,
    previous_checkout_from_messages, resolve_empty_pick_resolution, scan_cherry_pick_argv,
    sequencer_opts_text, strip_trailing_signoff_line, Args, EmptyPickResolution, MergeFavor,
    apply_keep_empty, pick_operation, PickOperation, cherry_pick_source_message,
    same_content_modulo_trailing_newline, todo_pick_oids, pick_base_parent, can_fast_forward,
    stdin_commit_list,
};

fn args() -> Args {
    Args {
        commits: vec![],
        append_source: false,
        no_commit: false,
        signoff: false,
        mainline: None,
        continue_pick: false,
        abort: false,
        skip: false,
        quit: false,
        ff: false,
        allow_empty: false,
        allow_empty_message: false,
        keep_redundant_commits: false,
        strategy: None,
        strategy_option: vec![],
        empty: None,
        edit: false,
        rerere_autoupdate: false,
        no_rerere_autoupdate: false,
        reference: false,
        cleanup: None,
        stdin: false,
    }
}

fn strings(v: &[&str]) -> Vec<String> {
    v.iter().map(|s| s.to_string()).collect()
}

#[test]
fn argv_preprocessing() {
    let argv = strings(&["-2", "--author=Jane", "main", "--author", "Bob", "-x", "--", "-3"]);
    assert_eq!(preprocess_cherry_pick_argv(&argv), strings(&["main", "-x", "--", "-3"]));
    let (_, opts) = scan_cherry_pick_argv(&argv);
    assert_eq!(opts.max_count, Some(2));
    assert_eq!(opts.author, Some("Bob".to_string()));
    assert_eq!(preprocess_cherry_pick_argv(&strings(&["-", "-1x", "--author"])), strings(&["-", "-1x", "--author"]));
}

#[test]
fn empty_pick_resolution() {
    let mut a = args();
    assert_eq!(resolve_empty_pick_resolution(true, &a), EmptyPickResolution::Stop);
    assert_eq!(resolve_empty_pick_resolution(false, &a), EmptyPickResolution::Stop);
    a.empty = Some("drop".to_string());
    assert_eq!(resolve_empty_pick_resolution(false, &a), EmptyPickResolution::Drop);
    a.empty = Some("keep".to_string());
    assert_eq!(resolve_empty_pick_resolution(false, &a), EmptyPickResolution::Proceed);
    assert_eq!(resolve_empty_pick_resolution(true, &a), EmptyPickResolution::Stop);
    a.allow_empty = true;
    assert_eq!(resolve_empty_pick_resolution(true, &a), EmptyPickResolution::Proceed);
}

#[test]
fn flags_refused_with_operations() {
    let mut a = args();
    assert_eq!(incompatible_pick_flag(&a), None);
    a.edit = true;
    a.ff = true;
    assert_eq!(incompatible_pick_flag(&a), Some("--ff"));
}

#[test]
fn checkout_messages() {
    assert_eq!(
        parse_checkout_moving_message("checkout: moving from main to topic"),
        Some(("main".to_string(), "topic".to_string()))
    );
    assert_eq!(
        parse_checkout_moving_message("checkout: moving from a to b to c"),
        Some(("a to b".to_string(), "c".to_string()))
    );
    assert_eq!(parse_checkout_moving_message("commit: x"), None);
    let msgs = strings(&[
        "checkout: moving from main to a",
        "commit: work",
        "checkout: moving from a to b",
    ]);
    assert_eq!(previous_checkout_from_messages(&msgs, 1), Some("a".to_string()));
    assert_eq!(previous_checkout_from_messages(&msgs, 2), Some("main".to_string()));
    assert_eq!(previous_checkout_from_messages(&msgs, 3), None);
    assert_eq!(previous_checkout_from_messages(&msgs, 0), None);
}

#[test]
fn signoff_removal() {
    let mut m = String::from("Subject\n\nBody\n\nSigned-off-by: A <a@b>\n");
    strip_trailing_signoff_line(&mut m, "Signed-off-by: A <a@b>\n");
    assert_eq!(m, "Subject\n\nBody\n");
    let mut n = String::from("Subject\n");
    strip_trailing_signoff_line(&mut n, "Signed-off-by: A <a@b>");
    assert_eq!(n, "Subject\n");
    let mut o = String::from("Signed-off-by: A <a@b>  \n");
    strip_trailing_signoff_line(&mut o, "Signed-off-by: A <a@b>");
    assert_eq!(o, "");
}

#[test]
fn strategy_options() {
    let (favor, ws) = parse_strategy_options(&strings(&["ours", "ignore-cr-at-eol", "theirs", "patience"]));
    assert_eq!(favor, MergeFavor::Theirs);
    assert!(ws.ignore_cr_at_eol && !ws.ignore_all_space);
    let (none, _) = parse_strategy_options(&[]);
    assert_eq!(none, MergeFavor::Normal);
}

#[test]
fn todo_lines() {
    assert_eq!(parse_todo_pick_line("pick abcdef0 subject"), Some("abcdef0".to_string()));
    assert_eq!(parse_todo_pick_line("  pick\t1234\n"), Some("1234".to_string()));
    assert_eq!(parse_todo_pick_line("pick abc"), None);
    assert_eq!(parse_todo_pick_line("# pick abcdef0"), None);
    assert_eq!(parse_todo_pick_line("picked abcdef0"), None);
    assert_eq!(parse_todo_pick_line("revert abcdef0"), None);
    assert_eq!(parse_todo_pick_line("pick xyz1234"), None);
}

#[test]
fn options_file_roundtrip() {
    let mut a = args();
    a.signoff = true;
    a.mainline = Some(2);
    a.strategy = Some("recursive".to_string());
    a.strategy_option = strings(&["theirs", "patience"]);
    a.no_rerere_autoupdate = true;
    a.keep_redundant_commits = true;
    a.cleanup = Some("strip".to_string());
    let text = sequencer_opts_text(&a);
    assert_eq!(
        text,
        "[options]\n\tsignoff = true\n\tmainline = 2\n\tstrategy = recursive\n\
         \tstrategy-option = theirs\n\tstrategy-option = patience\n\tallow-rerere-auto = false\n\
         \tkeep-redundant-commits = true\n\tcleanup = strip\n"
    );
    let mut b = args();
    merge_sequencer_opts(&text, &mut b);
    assert!(b.signoff && b.keep_redundant_commits && b.allow_empty && b.no_rerere_autoupdate);
    assert_eq!(b.mainline, Some(2));
    assert_eq!(b.strategy, Some("recursive".to_string()));
    assert_eq!(b.strategy_option, strings(&["theirs", "patience"]));
    assert_eq!(b.cleanup, Some("strip".to_string()));
}

#[test]
fn options_file_details() {
    let mut b = args();
    merge_sequencer_opts("# c\n[options]\noptions.record-origin = true\nmainline=+3\nedit = false\nempty = drop\nbogus\n", &mut b);
    assert!(b.append_source);
    assert_eq!(b.mainline, Some(3));
    assert!(!b.edit);
    assert_eq!(b.empty, Some("drop".to_string()));
}

#[test]
fn sequencer_opts_read_back_restores_options() {
    let mut a = args();
    a.signoff = true;
    a.append_source = true;
    a.mainline = Some(12);
    a.strategy = Some("ort".to_string());
    a.strategy_option = strings(&["theirs", "ignore-space-change"]);
    a.rerere_autoupdate = true;
    a.no_rerere_autoupdate = true;
    a.edit = true;
    a.keep_redundant_commits = true;
    a.empty = Some("drop".to_string());
    a.cleanup = Some("verbatim".to_string());
    let text = sequencer_opts_text(&a);
    let mut b = args();
    merge_sequencer_opts(&text, &mut b);
    assert!(b.signoff && b.append_source && b.edit && b.keep_redundant_commits);
    assert!(b.allow_empty, "keep-redundant-commits brings allow-empty");
    assert!(!b.allow_empty_message && !b.no_commit);
    assert_eq!(b.mainline, Some(12));
    assert_eq!(b.strategy.as_deref(), Some("ort"));
    assert_eq!(b.strategy_option, strings(&["theirs", "ignore-space-change"]));
    assert!(b.rerere_autoupdate && !b.no_rerere_autoupdate);
    assert_eq!(b.empty.as_deref(), Some("drop"));
    assert_eq!(b.cleanup.as_deref(), Some("verbatim"));
}

#[test]
fn todo_list_validation() {
    let ok = "pick 1234abcd first\n\n# comment\n  pick deadbeef second  \n";
    assert_eq!(first_invalid_todo_line(ok), None);
    let bad = "pick 1234abcd first\n  revert 1234abcd second  \npick zz\n";
    assert_eq!(first_invalid_todo_line(bad), Some("revert 1234abcd second".to_string()));
    assert_eq!(first_invalid_todo_line("pick xyz\n"), Some("pick xyz".to_string()));
    assert_eq!(first_invalid_todo_line(""), None);
}

#[test]
fn pick_operations() {
    let mut a = args();
    assert_eq!(pick_operation(&a), PickOperation::Pick);
    a.continue_pick = true;
    assert_eq!(pick_operation(&a), PickOperation::Continue);
    a.abort = true;
    assert_eq!(pick_operation(&a), PickOperation::Abort);
    a.mainline = Some(0);
    assert_eq!(pick_operation(&a), PickOperation::BadMainline);
    a.mainline = Some(1);
    assert_eq!(pick_operation(&a), PickOperation::Abort);
    a.reference = true;
    assert_eq!(pick_operation(&a), PickOperation::ShowUsage);
}

#[test]
fn keep_allows_empty() {
    let mut a = args();
    apply_keep_empty(&mut a);
    assert!(!a.allow_empty);
    a.empty = Some("keep".to_string());
    apply_keep_empty(&mut a);
    assert!(a.allow_empty);
    let mut b = args();
    b.keep_redundant_commits = true;
    apply_keep_empty(&mut b);
    assert!(b.allow_empty);
}

#[test]
fn picked_commit_message_source() {
    assert_eq!(cherry_pick_source_message(None, "msg\n"), "msg\n");
    assert_eq!(cherry_pick_source_message(Some(b"raw\n"), "msg\n"), "msg\n");
    assert_eq!(cherry_pick_source_message(Some(b"raw"), "msg\n"), "raw");
    assert_eq!(cherry_pick_source_message(Some(b"r\xffw"), "msg"), "r\u{fffd}w");
}

#[test]
fn blob_content_up_to_final_newline() {
    assert!(same_content_modulo_trailing_newline(b"a\nb\n", b"a\nb"));
    assert!(same_content_modulo_trailing_newline(b"", b"\n"));
    assert!(!same_content_modulo_trailing_newline(b"a\n\n", b"a"));
    assert!(!same_content_modulo_trailing_newline(b"ab", b"ac"));
}

#[test]
fn todo_list_commits() {
    let todo = "pick 1234abcd first\n# note\nrevert 99999999 x\n  pick deadbeef second\n";
    assert_eq!(todo_pick_oids(todo), vec!["1234abcd".to_string(), "deadbeef".to_string()]);
    assert!(todo_pick_oids("").is_empty());
}

#[test]
fn argv_after_double_dash_passes_through() {
    let rest = strings(&["-3", "A", "--author=me", "--", "-5", "--author=x", "B"]);
    let (out, opts) = scan_cherry_pick_argv(&rest);
    assert_eq!(out, strings(&["A", "--", "-5", "--author=x", "B"]));
    assert_eq!(opts.max_count, Some(3));
    assert_eq!(opts.author, Some("me".to_string()));
    let (head, head_opts) = scan_cherry_pick_argv(&rest[..3]);
    let mut joined = head;
    joined.extend_from_slice(&rest[3..]);
    assert_eq!(preprocess_cherry_pick_argv(&rest), joined);
    assert_eq!(head_opts.max_count, opts.max_count);
    assert_eq!(head_opts.author, opts.author);
}

#[test]
fn base_parent_of_a_pick() {
    assert_eq!(pick_base_parent("abc", None, 1), Ok(Some(0)));
    assert_eq!(pick_base_parent("abc", None, 0), Ok(None));
    assert_eq!(pick_base_parent("abc", Some(2), 2), Ok(Some(1)));
    assert_eq!(pick_base_parent("abc", Some(3), 2), Err("commit abc does not have parent 3".to_string()));
    assert_eq!(pick_base_parent("abc", Some(0), 2), Err("commit abc does not have parent 0".to_string()));
    assert_eq!(pick_base_parent("abc", None, 2), Err("commit abc is a merge but no -m option was given".to_string()));
}

#[test]
fn fast_forward_decision() {
    assert!(can_fast_forward(None, Some("p")));
    assert!(can_fast_forward(None, None));
    assert!(can_fast_forward(Some("abc"), Some("abc")));
    assert!(!can_fast_forward(Some("abc"), Some("abd")));
    assert!(!can_fast_forward(Some("abc"), None));
}

#[test]
fn commits_from_stdin() {
    assert_eq!(stdin_commit_list("  a1 \n\n\tb2\r\n   \nc3"), strings(&["a1", "b2", "c3"]));
    assert!(stdin_commit_list("").is_empty());
    assert!(stdin_commit_list(" \n \n").is_empty());
}
