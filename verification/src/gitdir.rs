//! The plain text files of a git directory that the commands read before they touch objects:
//! a gitfile, and the `HEAD` reflog.
use vstd::prelude::*;
use crate::text::{
    chars_of, has_prefix, lemma_pos_of, lemma_views_push, lines, pos_of, split_lines, starts_with, string_all,
    string_of, trim, trim_bounds, views,
};

verus! {

/// The target of a gitfile (`gitdir: <path>`): what follows `gitdir:`, trimmed; `None` when
/// the file does not start with `gitdir:`.
pub open spec fn gitfile_target_spec(text: Seq<char>) -> Option<Seq<char>> {
    if starts_with(text, "gitdir:"@) {
        Some(trim(text.subrange(7, text.len() as int)))
    } else {
        None
    }
}

/// Reads the target of a `.git` file that points at the real git directory.
pub fn gitfile_target(text: &str) -> (r: Option<String>)
    ensures
        match r {
            Some(t) => gitfile_target_spec(text@) == Some(t@),
            None => gitfile_target_spec(text@) is None,
        },
{
    let v = chars_of(text);
    let p = chars_of("gitdir:");
    proof {
        reveal_strlit("gitdir:");
    }
    if !has_prefix(&v, &p) {
        return None;
    }
    let (a, b) = trim_bounds(&v, 7, v.len());
    Some(string_of(&v, a, b))
}

/// The message of a reflog line: what follows its first tab, or nothing without one.
pub open spec fn reflog_message(line: Seq<char>) -> Seq<char> {
    let k = pos_of(line, '\t') as int;
    if k < line.len() {
        line.subrange(k + 1, line.len() as int)
    } else {
        Seq::empty()
    }
}

/// The messages of the lines of a reflog, oldest first.
pub open spec fn reflog_messages_spec(ls: Seq<Seq<char>>) -> Seq<Seq<char>> {
    ls.map_values(|l: Seq<char>| reflog_message(l))
}

/// The messages of a reflog file's text, one per line, oldest first.
pub fn reflog_messages(text: &str) -> (r: Vec<String>)
    ensures
        views(r@) == reflog_messages_spec(lines(text@)),
{
    let v = chars_of(text);
    let ls = split_lines(&v);
    let ghost lv = lines(v@);
    let mut out: Vec<String> = Vec::new();
    let mut k: usize = 0;
    while k < ls.len()
        invariant
            lv == lines(v@),
            v@ == text@,
            ls@.len() == lv.len(),
            forall|j: int|
                #![trigger ls@[j]]
                0 <= j < ls@.len() ==> ls@[j].0 <= ls@[j].1 <= v@.len() && v@.subrange(
                    ls@[j].0 as int,
                    ls@[j].1 as int,
                ) == lv[j],
            k <= ls@.len(),
            views(out@) == reflog_messages_spec(lv.take(k as int)),
        decreases ls@.len() - k,
    {
        let (a, b) = ls[k];
        let ghost line = lv[k as int];
        assert(v@.subrange(a as int, b as int) == line);
        let mut t = a;
        while t < b && v[t] != '\t'
            invariant
                a <= t <= b <= v@.len(),
                line == v@.subrange(a as int, b as int),
                forall|j: int| a <= j < t ==> v@[j] != '\t',
            decreases b - t,
        {
            t = t + 1;
        }
        proof {
            lemma_pos_of(line, '\t');
            let p = pos_of(line, '\t') as int;
            if t < b {
                assert(line[t - a] == '\t');
                assert(p <= t - a);
                if p < t - a {
                    assert(line[p] == v@[a + p]);
                }
            } else {
                if p < line.len() {
                    assert(line[p] == v@[a + p]);
                }
            }
        }
        let msg = if t < b {
            string_of(&v, t + 1, b)
        } else {
            String::new()
        };
        assert(t < b ==> v@.subrange(t + 1, b as int) =~= line.subrange((t - a) + 1, line.len() as int));
        let ghost prev = out@;
        out.push(msg);
        proof {
            lemma_views_push(prev, msg);
            assert(lv.take(k + 1) =~= lv.take(k as int).push(line));
            assert(reflog_messages_spec(lv.take(k + 1)) =~= reflog_messages_spec(lv.take(k as int)).push(
                reflog_message(line),
            ));
        }
        k = k + 1;
    }
    assert(lv.take(lv.len() as int) =~= lv);
    out
}

} // verus!
