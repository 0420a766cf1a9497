use grit_commands::clone::{
    clone_default_remote_from_c_flags, clone_filter_spec, clone_pack_filter_active,
    default_branch_from_config, default_head_branch_fallback, effective_reject_shallow,
    extract_remote_url, http_url_basename, is_ssh_url, looks_like_hex_object_id,
    percent_decode_file_url_path, remote_tracking_head_plan, resolve_remote_name,
    resolved_clone_ref_storage, validate_clone_target_name, Args, TrackingHeadPlan, prepare_clone_args,
    effective_clone_server_options, shallow_options_ignored_warnings, source_head_info,
    default_branch_from_upload_pack_advertisement, mnemonic_prefix_enabled, remote_tracked_branch_name,
    config_last_value, bundle_uri_error,
};

fn args() -> Args {
    Args {
        repository: "src".to_string(),
        directory: None,
        origin: None,
        bare: false,
        depth: None,
        shallow_since: None,
        shallow_exclude: vec![],
        bundle_uri: None,
        reject_shallow: false,
        no_reject_shallow: false,
        progress: false,
        branch: None,
        no_checkout: false,
        quiet: false,
        config: vec![],
        revision: None,
        template: None,
        mirror: false,
        single_branch: false,
        no_single_branch: false,
        no_tags: false,
        recurse_submodules: false,
        jobs: None,
        remote_submodules: false,
        shallow_submodules: false,
        no_shallow_submodules: false,
        also_filter_submodules: false,
        upload_pack: None,
        server_options: vec![],
        local: false,
        no_local: false,
        no_hardlinks: false,
        filter: vec![],
        sparse: false,
        shared: false,
        reference: vec![],
        reference_if_able: vec![],
        dissociate: false,
        ipv4: false,
        ipv6: false,
        separate_git_dir: None,
        ref_format: None,
    }
}

#[test]
fn ref_storage() {
    let mut a = args();
    assert_eq!(resolved_clone_ref_storage(&a), Ok("files"));
    a.ref_format = Some("reftable".to_string());
    assert_eq!(resolved_clone_ref_storage(&a), Ok("reftable"));
    a.ref_format = Some("bogus".to_string());
    assert_eq!(resolved_clone_ref_storage(&a), Err("fatal: unknown ref storage format 'bogus'".to_string()));
}

#[test]
fn remote_name_from_flags() {
    let c = vec!["user.name=x".to_string(), " Clone.DefaultRemoteName = up ".to_string(), "clone.defaultremotename=z".to_string()];
    assert_eq!(clone_default_remote_from_c_flags(&c), Some("up".to_string()));
    assert_eq!(clone_default_remote_from_c_flags(&["novalue".to_string()]), None);
}

#[test]
fn remote_name_resolution() {
    let mut a = args();
    assert_eq!(resolve_remote_name(&a, true, None), Ok("origin".to_string()));
    assert_eq!(resolve_remote_name(&a, true, Some("cfg")), Ok("cfg".to_string()));
    a.config = vec!["clone.defaultRemoteName=fromc".to_string()];
    assert_eq!(resolve_remote_name(&a, true, Some("cfg")), Ok("fromc".to_string()));
    a.origin = Some("bad name".to_string());
    assert_eq!(resolve_remote_name(&a, false, None), Err("'bad name' is not a valid remote name".to_string()));
    a.origin = Some("up".to_string());
    assert_eq!(resolve_remote_name(&a, true, None), Ok("up".to_string()));
}

#[test]
fn url_basenames() {
    assert_eq!(http_url_basename("https://example.com/org/repo.git/"), "repo");
    assert_eq!(http_url_basename("https://example.com/org/repo"), "repo");
    assert_eq!(http_url_basename("plain.git"), "plain");
}

#[test]
fn target_names() {
    assert_eq!(validate_clone_target_name("ok"), Ok(()));
    assert_eq!(
        validate_clone_target_name("bad\nname"),
        Err("bundle-uri: filename is malformed: bad\nname".to_string())
    );
}

#[test]
fn ssh_urls() {
    assert!(is_ssh_url("host:path/repo"));
    assert!(!is_ssh_url("ssh://host/repo"));
    assert!(!is_ssh_url("./a:b"));
    assert!(!is_ssh_url(":path"));
    assert!(!is_ssh_url("host:"));
    assert!(!is_ssh_url("local/path"));
}

#[test]
fn remote_urls_in_config() {
    let cfg = "[core]\n\turl = nope\n[remote \"origin\"]\n\tfetch = x\n\turl =  /srv/repo.git \n[remote \"other\"]\n\turl=/o\n";
    assert_eq!(extract_remote_url(cfg, "origin"), Some("/srv/repo.git".to_string()));
    assert_eq!(extract_remote_url(cfg, "other"), Some("/o".to_string()));
    assert_eq!(extract_remote_url(cfg, "missing"), None);
}

#[test]
fn hex_ids() {
    assert!(looks_like_hex_object_id("abcd"));
    assert!(looks_like_hex_object_id("0123456789abcdef0123456789ABCDEF01234567"));
    assert!(!looks_like_hex_object_id("abc"));
    assert!(!looks_like_hex_object_id("abcg"));
    assert!(!looks_like_hex_object_id("0123456789abcdef0123456789abcdef012345678"));
}

#[test]
fn percent_decoding() {
    assert_eq!(percent_decode_file_url_path("/a%20b/%41"), Ok("/a b/A".to_string()));
    assert_eq!(percent_decode_file_url_path("%+f"), Ok("\u{f}".to_string()));
    assert_eq!(percent_decode_file_url_path("%e9"), Ok("\u{e9}".to_string()));
    assert_eq!(percent_decode_file_url_path("/x%C3%A9%e9y"), Ok("/x\u{c3}\u{a9}\u{e9}y".to_string()));
    assert_eq!(percent_decode_file_url_path("caf\u{e9}%ff"), Ok("caf\u{e9}\u{ff}".to_string()));
    assert_eq!(percent_decode_file_url_path("/tmp/caf%C3%A9"), Ok("/tmp/café".to_string()));
    assert_eq!(percent_decode_file_url_path("/tmp/café"), Ok("/tmp/café".to_string()));
    assert_eq!(percent_decode_file_url_path("%é"), Err("bad % escape in file URL".to_string()));
    assert_eq!(percent_decode_file_url_path("plain/path"), Ok("plain/path".to_string()));
    assert_eq!(percent_decode_file_url_path("%4"), Err("bad % escape in file URL".to_string()));
    assert_eq!(percent_decode_file_url_path("%zz"), Err("bad % escape in file URL".to_string()));
}

#[test]
fn filter_specs() {
    let mut a = args();
    assert_eq!(clone_filter_spec(&a), None);
    a.filter = vec![" blob:none ".to_string(), "".to_string()];
    assert_eq!(clone_filter_spec(&a), Some("blob:none".to_string()));
    a.filter.push("tree:0".to_string());
    a.filter.push("sparse:oid=x".to_string());
    assert_eq!(clone_filter_spec(&a), Some("combine:blob:none+tree:0+sparse:oid=x".to_string()));
    assert!(clone_pack_filter_active(&a, None));
    assert!(!clone_pack_filter_active(&a, Some(false)));
    assert!(!clone_pack_filter_active(&args(), Some(true)));
}

#[test]
fn shallow_rejection() {
    let mut a = args();
    assert!(!effective_reject_shallow(&a, false));
    assert!(effective_reject_shallow(&a, true));
    a.no_reject_shallow = true;
    a.reject_shallow = true;
    assert!(!effective_reject_shallow(&a, true));
}

#[test]
fn default_branches() {
    assert_eq!(default_branch_from_config(Some("dev"), Some("main")), Some("dev".to_string()));
    assert_eq!(default_branch_from_config(Some(""), Some("main")), Some("main".to_string()));
    assert_eq!(default_branch_from_config(None, Some("none")), None);
    assert_eq!(default_head_branch_fallback(None), "master");
    assert_eq!(default_head_branch_fallback(Some("trunk".to_string())), "trunk");
}

#[test]
fn tracking_head_plans() {
    match remote_tracking_head_plan("origin", Some("refs/heads/main"), true, None) {
        TrackingHeadPlan::Symref { name, target } => {
            assert_eq!(name, "refs/remotes/origin/HEAD");
            assert_eq!(target, "refs/remotes/origin/main");
        },
        _ => panic!("expected a symref"),
    }
    assert!(matches!(remote_tracking_head_plan("origin", Some("refs/heads/main"), false, Some("abc")), TrackingHeadPlan::Skip));
    match remote_tracking_head_plan("origin", None, false, Some("abc")) {
        TrackingHeadPlan::GuessFrom { oid } => assert_eq!(oid, "abc"),
        _ => panic!("expected a guess"),
    }
    assert!(matches!(remote_tracking_head_plan("origin", Some("HEAD"), true, None), TrackingHeadPlan::Skip));
}

#[test]
fn clone_option_checks() {
    let mut a = args();
    a.mirror = true;
    a.no_single_branch = true;
    a.single_branch = false;
    assert_eq!(prepare_clone_args(&mut a, true), None);
    assert!(a.bare && !a.single_branch);

    let mut a = args();
    a.ipv4 = true;
    a.ipv6 = true;
    assert_eq!(prepare_clone_args(&mut a, true).as_deref(), Some("options '-4' and '-6' cannot be used together"));

    let mut a = args();
    a.server_options = vec!["x".to_string()];
    assert!(prepare_clone_args(&mut a, false).unwrap().starts_with("server options require protocol version 2"));
    assert_eq!(prepare_clone_args(&mut a, true), None);

    let mut a = args();
    a.mirror = true;
    a.separate_git_dir = Some("elsewhere".to_string());
    assert_eq!(
        prepare_clone_args(&mut a, true).as_deref(),
        Some("options '--bare' and '--separate-git-dir' cannot be used together")
    );

    let mut a = args();
    a.repository = "https://example.com/r.git".to_string();
    a.separate_git_dir = Some("elsewhere".to_string());
    assert_eq!(
        prepare_clone_args(&mut a, true).as_deref(),
        Some("--separate-git-dir is only supported for local repository clones")
    );

    let mut a = args();
    a.bundle_uri = Some("b".to_string());
    a.depth = Some(1);
    assert_eq!(
        prepare_clone_args(&mut a, true).as_deref(),
        Some("options '--bundle-uri' and '--depth/--shallow-since/--shallow-exclude' cannot be used together")
    );
}

#[test]
fn server_options_for_clone() {
    let mut a = args();
    assert_eq!(effective_clone_server_options(&a, "origin", true, None), Ok(vec![]));
    a.config = strings(&["remote.origin.serverOption=a", "user.name=x", "REMOTE.ORIGIN.SERVEROPTION=b"]);
    assert_eq!(effective_clone_server_options(&a, "origin", true, None), Ok(strings(&["a", "b"])));
    assert_eq!(effective_clone_server_options(&a, "origin", false, None), Ok(vec![]));
    let env = "'remote.origin.serveroption=e1' 'remote.origin.serveroption='  'remote.origin.serveroption=e2'";
    a.config = strings(&["remote.origin.serveroption=c"]);
    assert_eq!(effective_clone_server_options(&a, "origin", true, Some(env)), Ok(strings(&["e2", "c"])));
    a.config = strings(&["remote.origin.serveroption=c", "remote.origin.serveroption="]);
    assert_eq!(effective_clone_server_options(&a, "origin", true, Some(env)), Ok(vec![]));
    a.config = strings(&["remote.origin.serveroption"]);
    assert_eq!(
        effective_clone_server_options(&a, "origin", true, None),
        Err("error: missing value for 'remote.origin.serveroption'".to_string())
    );
    assert_eq!(
        effective_clone_server_options(&args(), "up", true, Some("'remote.up.serveroption'")),
        Err("error: missing value for 'remote.up.serveroption'".to_string())
    );
    a.server_options = strings(&["given"]);
    assert_eq!(effective_clone_server_options(&a, "origin", false, None), Ok(strings(&["given"])));
}

fn strings(v: &[&str]) -> Vec<String> {
    v.iter().map(|s| s.to_string()).collect()
}

#[test]
fn source_head_files() {
    assert_eq!(source_head_info("ref: refs/heads/main\n"), (Some("refs/heads/main".to_string()), None));
    assert_eq!(source_head_info("  ref:   refs/heads/x  "), (Some("refs/heads/x".to_string()), None));
    let oid = "0123456789abcdefABCDEF0123456789abcdef01";
    assert_eq!(source_head_info(&format!("{oid}\n")), (None, Some(oid.to_string())));
    assert_eq!(source_head_info("0123456789abcdefg123456789abcdef01234567"), (None, None));
    assert_eq!(source_head_info("garbage"), (None, None));
}

#[test]
fn local_clone_shallow_warnings() {
    let mut a = args();
    assert!(shallow_options_ignored_warnings("src", &a).is_empty());
    a.shallow_since = Some("2020-01-01".to_string());
    a.shallow_exclude = strings(&["v1"]);
    assert_eq!(
        shallow_options_ignored_warnings("src", &a),
        strings(&[
            "warning: --shallow-since is ignored in local clones; use file:// instead.",
            "warning: --shallow-exclude is ignored in local clones; use file:// instead.",
        ])
    );
    assert!(shallow_options_ignored_warnings("file:///src", &a).is_empty());
    a.no_local = true;
    assert!(shallow_options_ignored_warnings("src", &a).is_empty());
}

#[test]
fn advertised_default_branches() {
    let heads = vec![
        ("refs/tags/v1".to_string(), "aaa".to_string()),
        ("refs/heads/dev".to_string(), "bbb".to_string()),
        ("refs/heads/main".to_string(), "ccc".to_string()),
    ];
    assert_eq!(
        default_branch_from_upload_pack_advertisement(&heads, Some("refs/heads/trunk"), Some("ccc")),
        Some("trunk".to_string())
    );
    assert_eq!(
        default_branch_from_upload_pack_advertisement(&heads, Some("HEAD"), Some("ccc")),
        Some("main".to_string())
    );
    assert_eq!(default_branch_from_upload_pack_advertisement(&heads, None, Some("aaa")), None);
    assert_eq!(
        default_branch_from_upload_pack_advertisement(&heads, None, Some("zzz")),
        Some("dev".to_string())
    );
    assert_eq!(default_branch_from_upload_pack_advertisement(&[], None, None), None);
}

#[test]
fn remote_tracked_branch_choice() {
    assert_eq!(remote_tracked_branch_name("origin", "main", true, None), Some("main".to_string()));
    assert_eq!(remote_tracked_branch_name("origin", "main", false, None), None);
    let refs = strings(&["refs/remotes/origin/HEAD", "refs/remotes/origin/dev", "refs/remotes/origin/a/b", "refs/remotes/up/x"]);
    assert_eq!(remote_tracked_branch_name("origin", "main", false, Some(&refs)), Some("dev".to_string()));
    let two = strings(&["refs/remotes/origin/dev", "refs/remotes/origin/main2"]);
    assert_eq!(remote_tracked_branch_name("origin", "main", false, Some(&two)), None);
}

#[test]
fn mnemonic_prefix_setting() {
    assert!(!mnemonic_prefix_enabled(None));
    assert!(mnemonic_prefix_enabled(Some(" TRUE ")));
    assert!(mnemonic_prefix_enabled(Some("")));
    assert!(mnemonic_prefix_enabled(Some("on")));
    assert!(!mnemonic_prefix_enabled(Some("false")));
    assert!(!mnemonic_prefix_enabled(Some("2")));
}

#[test]
fn last_config_values() {
    let entries = vec![
        ("core.bare".to_string(), Some("false".to_string())),
        ("remote.origin.url".to_string(), Some("a".to_string())),
        ("remote.origin.url".to_string(), Some("b".to_string())),
        ("core.flag".to_string(), None),
    ];
    assert_eq!(config_last_value(&entries, "remote.origin.url"), Some("b".to_string()));
    assert_eq!(config_last_value(&entries, "core.flag"), None);
    assert_eq!(config_last_value(&entries, "missing"), None);
}

#[test]
fn malformed_bundle_uris() {
    assert_eq!(bundle_uri_error("https://example.com/b.bundle"), None);
    assert_eq!(
        bundle_uri_error("https://ex ample.com"),
        Some("error: bundle-uri: URI is malformed: https://ex ample.com".to_string())
    );
    assert!(bundle_uri_error("a\nb").is_some());
    assert!(bundle_uri_error("a\rb").is_some());
}
