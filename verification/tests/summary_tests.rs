use grit_commands::summary::{commit_summary_header, shortstat_line};

#[test]
fn diffstat_summary_lines() {
    assert_eq!(shortstat_line(0, 3, 4), None);
    assert_eq!(shortstat_line(1, 1, 0).as_deref(), Some(" 1 file changed, 1 insertion(+)"));
    assert_eq!(
        shortstat_line(3, 10, 1).as_deref(),
        Some(" 3 files changed, 10 insertions(+), 1 deletion(-)")
    );
    assert_eq!(shortstat_line(2, 0, 2).as_deref(), Some(" 2 files changed, 2 deletions(-)"));
    assert_eq!(shortstat_line(1, 0, 0).as_deref(), Some(" 1 file changed"));
}

#[test]
fn summary_header_lines() {
    let oid = "0123456789abcdef0123456789abcdef01234567";
    assert_eq!(commit_summary_header("main", false, oid, "Add file"), "[main 0123456] Add file");
    assert_eq!(
        commit_summary_header("topic", true, oid, "first"),
        "[topic (root-commit) 0123456] first"
    );
    assert_eq!(commit_summary_header("HEAD detached", false, oid, ""), "[HEAD detached 0123456] ");
}
