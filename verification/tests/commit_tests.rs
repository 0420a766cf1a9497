use grit_commands::commit::{
    comment_line_prefix_for_message, comment_line_prefix_full, commit_rename_settings,
    commit_uses_editor, commit_uses_editor_default, config_commit_verbose_raw,
    conflicts_comment_block, has_auto_comment_char, hydrate_raw_commit_argv_values,
    normalize_autosquash_editor_message, parse_fixup_argument, parse_optional_path_spec,
    peel_message_flags_from_pathspec, prepare_commit_msg_hook_args, preprocess_commit_for_parse,
    raw_commit_rest, resolve_commit_cleanup_mode, resolve_commit_verbose_level,
    scan_raw_commit_argv, sequencer_finished_last_pick, should_sign_commit, strip_raw_prefix,
    Args, FixupMode, FixupParsed, check_commit_options, commit_early_option_error,
    drop_trailing_quiet_pathspecs, rebase_pick_whence, status_label_staged, status_label_unstaged,
    ChangeKind, template_includes_status, staged_changes_section, unstaged_changes_section,
};
use grit_commands::message::CommitMsgCleanupMode;

fn args() -> Args {
    Args {
        message: vec![],
        raw_messages: vec![],
        file: None,
        all: false,
        amend: false,
        allow_empty: false,
        allow_empty_message: false,
        dry_run: false,
        quiet: false,
        signoff: false,
        reuse_message: None,
        reedit_message: None,
        author: None,
        raw_author: None,
        date: None,
        no_post_rewrite: false,
        short: false,
        porcelain: false,
        long: false,
        ahead_behind: false,
        no_ahead_behind: false,
        include_paths: false,
        only: false,
        interactive: false,
        patch: false,
        unified: None,
        inter_hunk_context: None,
        no_auto_advance: false,
        untracked_files: None,
        verbose: 0,
        cleanup: None,
        template: None,
        edit: false,
        no_edit: false,
        status: false,
        no_status: false,
        trailer: vec![],
        gpg_sign: None,
        no_gpg_sign: false,
        bypass_hooks: false,
        fixup: None,
        squash: None,
        reset_author: false,
        pathspec_from_file: None,
        pathspec_file_nul: false,
        pathspec: vec![],
    }
}

fn strings(v: &[&str]) -> Vec<String> {
    v.iter().map(|s| s.to_string()).collect()
}

#[test]
fn peel_splits_options_out_of_paths() {
    let mut a = args();
    a.pathspec = strings(&[
        "file.txt", "-m", "first", "--message=second", "-mthird", "-F", "msg.txt", "--file=other",
        "-e", "--all", "--include", "--author", "A <a@b>", "--date=now", "dir/",
    ]);
    peel_message_flags_from_pathspec(&mut a);
    assert_eq!(a.message, strings(&["first", "second", "third"]));
    assert_eq!(a.file, Some("msg.txt".to_string()));
    assert!(a.edit && a.all && a.include_paths);
    assert_eq!(a.author, Some("A <a@b>".to_string()));
    assert_eq!(a.date, Some("now".to_string()));
    assert_eq!(a.pathspec, strings(&["file.txt", "dir/"]));
}

#[test]
fn peel_keeps_dangling_and_second_glued_file() {
    let mut a = args();
    a.file = Some("first".to_string());
    a.pathspec = strings(&["-Fsecond", "--message=", "-m"]);
    peel_message_flags_from_pathspec(&mut a);
    assert_eq!(a.file, Some("first".to_string()));
    assert_eq!(a.pathspec, strings(&["-Fsecond"]));
    assert!(a.message.is_empty());
}

#[test]
fn raw_argv_values() {
    let raw: Vec<Vec<u8>> = vec![
        b"--author".to_vec(),
        b"A \xff".to_vec(),
        b"-m".to_vec(),
        b"one".to_vec(),
        b"-mtwo".to_vec(),
        b"--message=three".to_vec(),
        b"--".to_vec(),
    ];
    let (msgs, author) = scan_raw_commit_argv(&raw);
    assert_eq!(msgs, vec![b"one".to_vec(), b"two".to_vec(), b"three".to_vec()]);
    assert_eq!(author, Some(b"A \xff".to_vec()));
    let mut a = args();
    a.author = Some("A ?".to_string());
    a.message = strings(&["one", "two", "three"]);
    hydrate_raw_commit_argv_values(&mut a, &raw);
    assert_eq!(a.raw_author, Some(b"A \xff".to_vec()));
    assert_eq!(a.raw_messages.len(), 3);
    let mut b = args();
    b.message = strings(&["only one"]);
    hydrate_raw_commit_argv_values(&mut b, &raw);
    assert_eq!(b.raw_author, None);
    assert!(b.raw_messages.is_empty());
}

#[test]
fn raw_prefix_needs_a_value() {
    assert_eq!(strip_raw_prefix(b"--author=x", b"--author="), Some(b"x".to_vec()));
    assert_eq!(strip_raw_prefix(b"--author=", b"--author="), None);
    assert_eq!(strip_raw_prefix(b"-m", b"--author="), None);
}

#[test]
fn raw_rest_after_subcommand() {
    let argv: Vec<Vec<u8>> = vec![b"grit".to_vec(), b"commit".to_vec(), b"-m".to_vec(), b"x".to_vec()];
    assert_eq!(raw_commit_rest(&argv), Some(vec![b"-m".to_vec(), b"x".to_vec()]));
    assert_eq!(raw_commit_rest(&argv[..1]), None);
}

#[test]
fn fixup_forms() {
    let f = parse_fixup_argument("amend:HEAD~2").unwrap();
    assert_eq!(f.mode, FixupMode::AmendStyle { is_reword: false });
    assert_eq!(f.commit_ref, "HEAD~2");
    let r = parse_fixup_argument("reword:abc").unwrap();
    assert_eq!(r.mode, FixupMode::AmendStyle { is_reword: true });
    let p = parse_fixup_argument("HEAD").unwrap();
    assert_eq!(p.mode, FixupMode::Fixup);
    assert_eq!(p.commit_ref, "HEAD");
    let c = parse_fixup_argument("v1.0:file").unwrap();
    assert_eq!(c.mode, FixupMode::Fixup);
    assert_eq!(c.commit_ref, "v1.0:file");
    assert_eq!(
        parse_fixup_argument("squash:abc").err(),
        Some("unknown option: --fixup=squash:abc".to_string())
    );
}

#[test]
fn editor_decisions() {
    let mut a = args();
    assert!(commit_uses_editor_default(&a, None));
    a.message = strings(&["m"]);
    assert!(!commit_uses_editor_default(&a, None));
    assert!(!commit_uses_editor(&a, None));
    a.edit = true;
    assert!(commit_uses_editor(&a, None));
    let mut b = args();
    let fix = FixupParsed { mode: FixupMode::Fixup, commit_ref: "HEAD".to_string() };
    assert!(!commit_uses_editor_default(&b, Some(&fix)));
    let amend = FixupParsed { mode: FixupMode::AmendStyle { is_reword: false }, commit_ref: "HEAD".to_string() };
    assert!(commit_uses_editor_default(&b, Some(&amend)));
    b.no_edit = true;
    assert!(!commit_uses_editor(&b, Some(&amend)));
    let mut c = args();
    c.reuse_message = Some("HEAD".to_string());
    assert!(!commit_uses_editor_default(&c, None));
}

#[test]
fn optional_path_magic() {
    assert_eq!(parse_optional_path_spec(":(optional)a/b"), (true, "a/b".to_string()));
    assert_eq!(parse_optional_path_spec("a/b"), (false, "a/b".to_string()));
}

#[test]
fn autosquash_blank_line() {
    let mut a = args();
    a.squash = Some("HEAD".to_string());
    assert_eq!(
        normalize_autosquash_editor_message(&a, None, true, "squash! x\nbody\n"),
        "squash! x\n\nbody\n"
    );
    assert_eq!(
        normalize_autosquash_editor_message(&a, None, true, "squash! x\n\n\nbody\n"),
        "squash! x\n\n\nbody\n"
    );
    assert_eq!(normalize_autosquash_editor_message(&a, None, false, "s\nb"), "s\nb");
    assert_eq!(normalize_autosquash_editor_message(&a, None, true, "s\n\n"), "s\n\n");
}

#[test]
fn cleanup_mode_choice() {
    let mut a = args();
    assert_eq!(resolve_commit_cleanup_mode(&a, None, true), CommitMsgCleanupMode::All);
    assert_eq!(resolve_commit_cleanup_mode(&a, None, false), CommitMsgCleanupMode::Space);
    assert_eq!(resolve_commit_cleanup_mode(&a, Some(" verbatim "), true), CommitMsgCleanupMode::Verbatim);
    assert_eq!(resolve_commit_cleanup_mode(&a, Some("scissors"), false), CommitMsgCleanupMode::Space);
    a.cleanup = Some("scissors".to_string());
    assert_eq!(resolve_commit_cleanup_mode(&a, Some("strip"), true), CommitMsgCleanupMode::Scissors);
    a.cleanup = Some("bogus".to_string());
    assert_eq!(resolve_commit_cleanup_mode(&a, None, true), CommitMsgCleanupMode::All);
}

#[test]
fn verbose_config_values() {
    assert_eq!(config_commit_verbose_raw(None), -1);
    assert_eq!(config_commit_verbose_raw(Some(" TRUE ")), 1);
    assert_eq!(config_commit_verbose_raw(Some("")), 1);
    assert_eq!(config_commit_verbose_raw(Some("off")), 0);
    assert_eq!(config_commit_verbose_raw(Some("3")), 3);
    assert_eq!(config_commit_verbose_raw(Some("-2")), -2);
    assert_eq!(config_commit_verbose_raw(Some("x")), 0);
    assert_eq!(config_commit_verbose_raw(Some("99999999999999999999")), 0);
}

#[test]
fn verbose_level_precedence() {
    let mut a = args();
    assert_eq!(resolve_commit_verbose_level(&a, -1, None), 0);
    assert_eq!(resolve_commit_verbose_level(&a, 2, None), 2);
    a.verbose = 1;
    assert_eq!(resolve_commit_verbose_level(&a, 2, None), 1);
    assert_eq!(resolve_commit_verbose_level(&a, 2, Some(0)), 0);
}

#[test]
fn verbose_argv_scan() {
    let (rest, v) = preprocess_commit_for_parse(&strings(&["-vv", "--no-verbose", "-v", "-m", "x"]));
    assert_eq!(rest, strings(&["-vv", "-v", "-m", "x"]));
    assert_eq!(v, Some(1));
    let (_, none) = preprocess_commit_for_parse(&strings(&["-m", "x"]));
    assert_eq!(none, None);
    let (_, three) = preprocess_commit_for_parse(&strings(&["-vvv"]));
    assert_eq!(three, Some(3));
}

#[test]
fn signing_decision() {
    let mut a = args();
    assert!(!should_sign_commit(&a, false));
    assert!(should_sign_commit(&a, true));
    a.gpg_sign = Some(String::new());
    assert!(should_sign_commit(&a, false));
    a.no_gpg_sign = true;
    assert!(!should_sign_commit(&a, true));
}

#[test]
fn hook_arguments() {
    let mut a = args();
    assert_eq!(prepare_commit_msg_hook_args(&a, false, false, false), (None, None));
    assert_eq!(prepare_commit_msg_hook_args(&a, true, true, false), (Some("squash"), None));
    assert_eq!(prepare_commit_msg_hook_args(&a, true, false, false), (Some("merge"), None));
    assert_eq!(
        prepare_commit_msg_hook_args(&a, false, false, true),
        (Some("commit"), Some("CHERRY_PICK_HEAD".to_string()))
    );
    a.amend = true;
    assert_eq!(prepare_commit_msg_hook_args(&a, false, false, false), (Some("commit"), Some("HEAD".to_string())));
    a.message = strings(&["m"]);
    assert_eq!(prepare_commit_msg_hook_args(&a, true, false, true), (Some("message"), None));
}

#[test]
fn conflicts_block() {
    let mm = "Merge\n\n# Conflicts:\n#\ta.txt\n";
    assert_eq!(conflicts_comment_block(Some(mm), "#"), Some("\n# Conflicts:\n#\ta.txt\n".to_string()));
    assert_eq!(conflicts_comment_block(Some("x\n"), "#"), None);
    assert_eq!(conflicts_comment_block(None, "#"), None);
}

#[test]
fn last_pick_detection() {
    assert!(!sequencer_finished_last_pick(None));
    assert!(sequencer_finished_last_pick(Some("pick abc")));
    assert!(sequencer_finished_last_pick(Some("pick abc\n")));
    assert!(!sequencer_finished_last_pick(Some("pick abc\npick def\n")));
}

#[test]
fn comment_prefix_configuration() {
    assert_eq!(comment_line_prefix_full(None), "#");
    assert_eq!(comment_line_prefix_full(Some(" ; ")), ";");
    assert_eq!(comment_line_prefix_full(Some("AUTO")), "#");
    let entries = vec![("core.commentchar".to_string(), Some(" Auto".to_string()))];
    assert!(has_auto_comment_char(&entries));
    assert!(!has_auto_comment_char(&[("core.commentchar".to_string(), Some(";".to_string()))]));
    assert_eq!(comment_line_prefix_for_message(true, "#", "# x\n"), Ok(";".to_string()));
    assert_eq!(comment_line_prefix_for_message(false, "%", "# x\n"), Ok("%".to_string()));
    assert_eq!(
        comment_line_prefix_for_message(true, "#", "#\n;\n@\n!\n$\n%\n^\n&\n|\n:\n"),
        Err("fatal: unable to select a comment character".to_string())
    );
}

#[test]
fn rename_settings() {
    assert_eq!(commit_rename_settings(None, None), (Some(50), false));
    assert_eq!(commit_rename_settings(Some("false"), Some("copies")), (None, false));
    assert_eq!(commit_rename_settings(None, Some(" Copy ")), (Some(50), true));
    assert_eq!(commit_rename_settings(Some("yes"), None), (Some(50), false));
    assert_eq!(commit_rename_settings(Some("maybe"), None), (None, false));
}

#[test]
fn trailing_quiet_flags_leave_the_pathspec() {
    let mut p = strings(&["a.txt", "-q", "b", "--quiet", "-q"]);
    drop_trailing_quiet_pathspecs(&mut p);
    assert_eq!(p, strings(&["a.txt", "-q", "b"]));
    let mut only = strings(&["--quiet"]);
    drop_trailing_quiet_pathspecs(&mut only);
    assert!(only.is_empty());
}

#[test]
fn early_option_errors() {
    let mut a = args();
    assert_eq!(commit_early_option_error(&a), None);
    a.pathspec_file_nul = true;
    assert_eq!(
        commit_early_option_error(&a).as_deref(),
        Some("fatal: the option '--pathspec-file-nul' requires '--pathspec-from-file'")
    );
    a.pathspec_from_file = Some("list".to_string());
    a.all = true;
    assert_eq!(
        commit_early_option_error(&a).as_deref(),
        Some("fatal: options '--pathspec-from-file' and '-a' cannot be used together")
    );
    a.no_auto_advance = true;
    assert_eq!(
        commit_early_option_error(&a).as_deref(),
        Some("the option '--no-auto-advance' requires '--interactive/--patch'")
    );
}

#[test]
fn option_combinations() {
    let mut a = args();
    assert!(matches!(check_commit_options(&a), Ok(None)));
    a.message = strings(&["msg"]);
    a.file = Some("f".to_string());
    assert_eq!(check_commit_options(&a).err().as_deref(), Some("Only one of -m, -F, -C, -c can be used."));
    a.file = None;
    a.all = true;
    a.pathspec = strings(&["x", "y z"]);
    assert_eq!(
        check_commit_options(&a).err().as_deref(),
        Some("paths 'x y z' with -a does not make sense")
    );
    a.all = false;
    a.fixup = Some("reword:HEAD".to_string());
    assert_eq!(
        check_commit_options(&a).err().as_deref(),
        Some("fatal: options '-m' and '--fixup:reword' cannot be used together")
    );
    a.message = vec![];
    assert_eq!(
        check_commit_options(&a).err().as_deref(),
        Some("fatal: reword option of '--fixup' and path 'x' cannot be used together")
    );
    a.pathspec = vec![];
    match check_commit_options(&a) {
        Ok(Some(f)) => {
            assert_eq!(f.mode, FixupMode::AmendStyle { is_reword: true });
            assert_eq!(f.commit_ref, "HEAD");
        }
        _ => panic!("reword fixup without other options is accepted"),
    }
    a.fixup = Some("bogus:HEAD".to_string());
    assert_eq!(check_commit_options(&a).err().as_deref(), Some("unknown option: --fixup=bogus:HEAD"));
    a.fixup = None;
    a.only = true;
    assert_eq!(
        check_commit_options(&a).err().as_deref(),
        Some("fatal: No paths with --include/--only does not make sense.")
    );
    a.amend = true;
    assert!(matches!(check_commit_options(&a), Ok(None)));
}

#[test]
fn rebase_pick_detection() {
    assert!(rebase_pick_whence(true, Some("abc\n"), Some(" abc")));
    assert!(!rebase_pick_whence(false, Some("abc"), Some("abc")));
    assert!(!rebase_pick_whence(true, Some("abc"), Some("abd")));
    assert!(!rebase_pick_whence(true, Some("  \n"), Some("")));
    assert!(!rebase_pick_whence(true, None, Some("abc")));
}

#[test]
fn status_labels() {
    assert_eq!(status_label_staged(ChangeKind::Added), "new file");
    assert_eq!(status_label_staged(ChangeKind::Renamed), "renamed");
    assert_eq!(status_label_staged(ChangeKind::Other), "changed");
    assert_eq!(status_label_unstaged(ChangeKind::Added), "changed");
    assert_eq!(status_label_unstaged(ChangeKind::TypeChanged), "typechange");
    assert_eq!(status_label_unstaged(ChangeKind::Deleted), "deleted");
}

#[test]
fn template_status_setting() {
    let mut a = args();
    assert!(template_includes_status(&a, None));
    assert!(!template_includes_status(&a, Some(" Off ")));
    assert!(template_includes_status(&a, Some("maybe")));
    a.status = true;
    assert!(template_includes_status(&a, Some("false")));
    a.no_status = true;
    assert!(!template_includes_status(&a, None));
}

#[test]
fn peeling_twice_is_peeling_once() {
    let mut a = args();
    a.pathspec = strings(&[
        "x", "-m", "one", "-Fsecond", "--file=f", "-Fthird", "--amend", "y", "--date", "d", "-m",
    ]);
    peel_message_flags_from_pathspec(&mut a);
    assert_eq!(a.pathspec, strings(&["x", "-Fthird", "y"]));
    let (msg, file, path) = (a.message.clone(), a.file.clone(), a.pathspec.clone());
    peel_message_flags_from_pathspec(&mut a);
    assert_eq!(a.message, msg);
    assert_eq!(a.file, file);
    assert_eq!(a.pathspec, path);
    assert!(a.amend);
    assert_eq!(a.date, Some("d".to_string()));
}

#[test]
fn dry_run_change_sections() {
    let staged = vec![
        (ChangeKind::Added, "new.txt".to_string()),
        (ChangeKind::Renamed, "a -> b".to_string()),
    ];
    assert_eq!(
        staged_changes_section(&staged, false),
        "Changes to be committed:\n  (use \"git restore --staged <file>...\" to unstage)\n\tnew file:   new.txt\n\trenamed:   a -> b\n"
    );
    assert_eq!(
        staged_changes_section(&[], true),
        "Changes to be committed:\n  (use \"git restore --source=HEAD^1 --staged <file>...\" to unstage)\n"
    );
    let unstaged = vec![
        (ChangeKind::Modified, "x".to_string(), String::new()),
        (ChangeKind::Modified, "sub".to_string(), " (new commits)".to_string()),
    ];
    assert_eq!(
        unstaged_changes_section(&unstaged, true),
        "Changes not staged for commit:\n  (use \"git add <file>...\" to update what will be committed)\n  (use \"git restore <file>...\" to discard changes in working directory)\n  (commit or discard the untracked or modified content in submodules)\n\tmodified:   x\n\tmodified:   sub (new commits)\n"
    );
    assert_eq!(
        unstaged_changes_section(&[], false),
        "Changes not staged for commit:\n  (use \"git add <file>...\" to update what will be committed)\n  (use \"git restore <file>...\" to discard changes in working directory)\n"
    );
}
