//! The summary printed after a commit is made: the `[<branch> <short>] <subject>` line and the
//! `N files changed, I insertions(+), D deletions(-)` line.
use vstd::prelude::*;
use crate::text::{all_hex, chars_of, nat_text, push_all, push_range, push_u64_text, string_all};

verus! {

/// `s` when `n` is not one (`1 file`, `2 files`).
pub open spec fn plural(n: nat) -> Seq<char> {
    if n == 1 {
        Seq::empty()
    } else {
        "s"@
    }
}

/// `, <n> <word>[s](<sign>)` when `n` is not zero.
pub open spec fn count_part(n: nat, word: Seq<char>, sign: Seq<char>) -> Seq<char> {
    if n > 0 {
        ", "@ + nat_text(n) + " "@ + word + plural(n) + sign
    } else {
        Seq::empty()
    }
}

/// The diffstat summary line, when any file changed.
pub open spec fn shortstat_spec(files: nat, insertions: nat, deletions: nat) -> Option<Seq<char>> {
    if files == 0 {
        None
    } else {
        Some(
            " "@ + nat_text(files) + " file"@ + plural(files) + " changed"@ + count_part(
                insertions,
                "insertion"@,
                "(+)"@,
            ) + count_part(deletions, "deletion"@, "(-)"@),
        )
    }
}

fn push_plural(out: &mut Vec<char>, n: u64)
    ensures
        final(out)@ == old(out)@ + plural(n as nat),
{
    if n != 1 {
        out.push('s');
        proof {
            reveal_strlit("s");
        }
        assert(final(out)@ =~= old(out)@ + plural(n as nat));
    } else {
        assert(out@ =~= old(out)@ + plural(n as nat));
    }
}

fn push_count_part(out: &mut Vec<char>, n: u64, word: &str, sign: &str)
    ensures
        final(out)@ == old(out)@ + count_part(n as nat, word@, sign@),
{
    if n > 0 {
        let ghost o = out@;
        let sep = chars_of(", ");
        push_all(out, &sep);
        push_u64_text(out, n);
        out.push(' ');
        let w = chars_of(word);
        push_all(out, &w);
        push_plural(out, n);
        let s = chars_of(sign);
        push_all(out, &s);
        proof {
            reveal_strlit(" ");
        }
        assert(out@ =~= o + count_part(n as nat, word@, sign@));
    } else {
        assert(out@ =~= old(out)@ + count_part(n as nat, word@, sign@));
    }
}

/// The diffstat summary line printed after a commit, or `None` when no file changed:
/// ` N file[s] changed`, then `, I insertion[s](+)` and `, D deletion[s](-)` for counts that
/// are not zero.
pub fn shortstat_line(files: u64, insertions: u64, deletions: u64) -> (r: Option<String>)
    ensures
        opt_text(r) == shortstat_spec(files as nat, insertions as nat, deletions as nat),
{
    if files == 0 {
        return None;
    }
    let mut out: Vec<char> = Vec::new();
    out.push(' ');
    push_u64_text(&mut out, files);
    let f = chars_of(" file");
    push_all(&mut out, &f);
    push_plural(&mut out, files);
    let c = chars_of(" changed");
    push_all(&mut out, &c);
    push_count_part(&mut out, insertions, "insertion", "(+)");
    push_count_part(&mut out, deletions, "deletion", "(-)");
    proof {
        reveal_strlit(" ");
    }
    assert(out@ =~= shortstat_spec(files as nat, insertions as nat, deletions as nat)->0);
    Some(string_all(&out))
}

/// The view of an optional string.
pub open spec fn opt_text(o: Option<String>) -> Option<Seq<char>> {
    match o {
        Some(s) => Some(s@),
        None => None,
    }
}

/// `[<branch> <short>] <subject>`, with ` (root-commit)` after the branch for a first commit;
/// `<short>` is the first seven hex digits of the commit's name.
pub open spec fn summary_header_spec(branch: Seq<char>, root: bool, oid_hex: Seq<char>, subject: Seq<char>) -> Seq<
    char,
> {
    "["@ + branch + (if root { " (root-commit) "@ } else { " "@ }) + oid_hex.take(7) + "] "@ + subject
}

/// The first line of the summary printed after a commit.
pub fn commit_summary_header(branch: &str, root: bool, oid_hex: &str, subject: &str) -> (r: String)
    requires
        oid_hex@.len() >= 7,
        all_hex(oid_hex@),
    ensures
        r@ == summary_header_spec(branch@, root, oid_hex@, subject@),
{
    let mut out = chars_of("[");
    let b = chars_of(branch);
    push_all(&mut out, &b);
    let mid = if root {
        chars_of(" (root-commit) ")
    } else {
        chars_of(" ")
    };
    push_all(&mut out, &mid);
    let h = chars_of(oid_hex);
    push_range(&mut out, &h, 0, 7);
    let close = chars_of("] ");
    push_all(&mut out, &close);
    let s = chars_of(subject);
    push_all(&mut out, &s);
    assert(h@.subrange(0, 7) =~= oid_hex@.take(7));
    assert(out@ =~= summary_header_spec(branch@, root, oid_hex@, subject@));
    string_all(&out)
}

} // verus!
