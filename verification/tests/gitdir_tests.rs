use grit_commands::gitdir::{gitfile_target, reflog_messages};

#[test]
fn gitfile_targets() {
    assert_eq!(gitfile_target("gitdir: ../.git/worktrees/w\n"), Some("../.git/worktrees/w".to_string()));
    assert_eq!(gitfile_target("gitdir:/abs"), Some("/abs".to_string()));
    assert_eq!(gitfile_target("not a gitfile"), None);
}

#[test]
fn reflog_lines() {
    let text = "0 1 A <a> 1 +0000\tcheckout: moving from main to topic\nno tab here\nx\ty\tz\n";
    assert_eq!(
        reflog_messages(text),
        vec!["checkout: moving from main to topic".to_string(), String::new(), "y\tz".to_string()]
    );
    assert!(reflog_messages("").is_empty());
}
