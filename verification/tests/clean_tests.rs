use grit_commands::clean::{
    clean_exclude_expands_non_ignored, exclude_plain_prefix_blocks_path, has_glob_meta,
    is_strictly_inside_nested_git_work_tree, matches_exclude_glob_only, path_for_clean_display,
    path_to_slash, path_under_configured_submodule, pathdiff, pathdiff_relative, pathspecs_equal,
    repo_relative_under_walk, submodule_probe_prefixes, trace2_perf_clock,
    unreadable_non_empty_dir_by_mode, clean_flags_error, Args, include_path_for_clean, order_for_removal,
};
use grit_commands::glob::glob_match;

fn strings(v: &[&str]) -> Vec<String> {
    v.iter().map(|s| s.to_string()).collect()
}

#[test]
fn glob_characters() {
    assert!(has_glob_meta("*.o"));
    assert!(has_glob_meta("a[b]"));
    assert!(!has_glob_meta("plain/dir"));
}

#[test]
fn pathspec_equality() {
    assert!(pathspecs_equal("dir/", "dir"));
    assert!(pathspecs_equal("a", "a"));
    assert!(!pathspecs_equal("a", "b"));
}

#[test]
fn walk_relative_paths() {
    assert_eq!(repo_relative_under_walk(Some("sub"), "f.txt"), "sub/f.txt");
    assert_eq!(repo_relative_under_walk(Some(""), "f.txt"), "f.txt");
    assert_eq!(repo_relative_under_walk(None, "f.txt"), "f.txt");
}

#[test]
fn exclude_prefixes() {
    let ex = strings(&["build", "*.o", "a/b"]);
    assert!(clean_exclude_expands_non_ignored("build", &ex));
    assert!(clean_exclude_expands_non_ignored("build/x", &ex));
    assert!(!clean_exclude_expands_non_ignored("builder", &ex));
    assert!(!clean_exclude_expands_non_ignored("a/b/c", &ex));
    assert!(!clean_exclude_expands_non_ignored("build/x", &strings(&["build/"])));
    assert!(exclude_plain_prefix_blocks_path("build/x", &ex));
    assert!(clean_exclude_expands_non_ignored("/x", &strings(&[""])));
    assert!(!exclude_plain_prefix_blocks_path("/x", &strings(&[""])));
}

#[test]
fn submodule_paths() {
    let subs = strings(&["lib/sub/", ""]);
    assert!(path_under_configured_submodule("lib/sub", &subs));
    assert!(path_under_configured_submodule("lib/sub/f", &subs));
    assert!(!path_under_configured_submodule("lib/subx", &subs));
    assert!(!path_under_configured_submodule("x", &strings(&[""])));
}

#[test]
fn probe_prefixes() {
    assert_eq!(submodule_probe_prefixes("a//b/c/"), strings(&["a", "a/b", "a/b/c"]));
    assert_eq!(submodule_probe_prefixes(""), Vec::<String>::new());
}

#[test]
fn exclude_globs() {
    assert!(matches_exclude_glob_only("dir/file.o", "*.o"));
    assert!(matches_exclude_glob_only("dir/file.o", "dir/*"));
    assert!(!matches_exclude_glob_only("dir/file.c", "*.o"));
    assert!(glob_match("abc", "a?c"));
    assert!(glob_match("", "*"));
    assert!(!glob_match("abc", "a"));
    assert!(glob_match("*a", "*"));
    assert!(glob_match("x*y", "x*"));
    assert!(glob_match("a*b", "a?b"));
    assert!(!glob_match("a*b", "a*c"));
}

#[test]
fn clock_stamps() {
    assert_eq!(trace2_perf_clock(86400 + 3661, 42), "01:01:01.000042");
    assert_eq!(trace2_perf_clock(0, 999999), "00:00:00.999999");
}

#[test]
fn relative_display_paths() {
    let cwd = strings(&["home", "u", "repo", "sub"]);
    let target = strings(&["home", "u", "repo", "other", "f"]);
    assert_eq!(pathdiff_relative(&cwd, &target), "../other/f");
    assert_eq!(pathdiff_relative(&cwd, &cwd), ".");
    assert_eq!(path_for_clean_display(&strings(&["r"]), &strings(&["r", "a\\b"])), "a/b");
    assert_eq!(path_to_slash(&strings(&["a", "b"])), "a/b");
}

#[test]
fn cwd_inside_work_tree() {
    let wt = strings(&["srv", "repo"]);
    assert_eq!(pathdiff(&strings(&["srv", "repo", "a", "b"]), &wt), Some("a/b".to_string()));
    assert_eq!(pathdiff(&wt, &wt), None);
    assert_eq!(pathdiff(&strings(&["tmp"]), &wt), None);
}

#[test]
fn nested_repositories() {
    let chain = strings(&["/w/a/b", "/w/a", "/w"]);
    assert!(is_strictly_inside_nested_git_work_tree(&chain, &[false, true, false], "/w"));
    assert!(!is_strictly_inside_nested_git_work_tree(&chain, &[false, false, true], "/w"));
    assert!(!is_strictly_inside_nested_git_work_tree(&chain, &[false, true, false], "/w/a/b"));
}

#[test]
fn unreadable_directories() {
    assert!(unreadable_non_empty_dir_by_mode(0o40000, true));
    assert!(!unreadable_non_empty_dir_by_mode(0o40700, true));
    assert!(!unreadable_non_empty_dir_by_mode(0o40000, false));
}

fn clean_args() -> Args {
    Args {
        dry_run: false,
        force: 0,
        directories: false,
        ignored_too: false,
        ignored_only: false,
        quiet: false,
        exclude: vec![],
        interactive: false,
        pathspec: vec![],
    }
}

#[test]
fn clean_flag_checks() {
    let mut a = clean_args();
    let refuse = "clean.requireForce defaults to true and neither -n nor -f given; refusing to clean";
    assert_eq!(clean_flags_error(&a, None).as_deref(), Some(refuse));
    assert_eq!(clean_flags_error(&a, Some(true)).as_deref(), Some(refuse));
    assert_eq!(clean_flags_error(&a, Some(false)), None);
    a.force = 1;
    assert_eq!(clean_flags_error(&a, None), None);
    a.ignored_too = true;
    a.ignored_only = true;
    assert_eq!(clean_flags_error(&a, None).as_deref(), Some("-x and -X cannot be used together"));
    a.force = 0;
    a.dry_run = true;
    assert_eq!(clean_flags_error(&a, None).as_deref(), Some("-x and -X cannot be used together"));
}

#[test]
fn paths_included_in_clean() {
    let mut a = clean_args();
    assert!(include_path_for_clean(&a, "f.o", false));
    assert!(!include_path_for_clean(&a, "f.o", true));
    a.ignored_too = true;
    assert!(include_path_for_clean(&a, "f.o", true));
    let mut b = clean_args();
    b.ignored_only = true;
    assert!(include_path_for_clean(&b, "f.o", true));
    assert!(!include_path_for_clean(&b, "f.o", false));
    b.exclude = strings(&["build"]);
    assert!(include_path_for_clean(&b, "build/x", false));
    assert!(!include_path_for_clean(&b, "build/x", true));
}

#[test]
fn removal_order_deepest_first_then_by_name() {
    let es = vec![
        ("b".to_string(), false),
        ("a/x/y".to_string(), false),
        ("a/".to_string(), true),
        ("c/d".to_string(), false),
        ("a".to_string(), true),
        ("a".to_string(), false),
        ("\u{e9}".to_string(), false),
        ("z".to_string(), false),
    ];
    let got = order_for_removal(es);
    let want: Vec<(String, bool)> = vec![
        ("a/x/y".to_string(), false),
        ("a/".to_string(), true),
        ("c/d".to_string(), false),
        ("a".to_string(), true),
        ("a".to_string(), false),
        ("b".to_string(), false),
        ("z".to_string(), false),
        ("\u{e9}".to_string(), false),
    ];
    assert_eq!(got, want);
}
