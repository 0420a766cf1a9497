//! `clean`: the path decisions (excludes, pathspec equality, submodule prefixes) and the
//! display of paths relative to the current directory.
use vstd::prelude::*;
use vstd::string::StringSliceAdditionalSpecFns;
use crate::glob::{glob_match, wildcard};
use crate::message::trim_trailing;
use crate::text::{
    chars_of, eq_lit, has_prefix, join, push_all, push_range, push_u64_text_pad2, rfind, rfind_all,
    seq_eq, starts_with, string_all, string_of, views, zero_pad, nat_text,
};

verus! {

/// Arguments for `clean` (the option parser's result).
pub struct Args {
    /// `-n` / `--dry-run`.
    pub dry_run: bool,
    /// `-f` / `--force`, counted (twice also removes nested repositories).
    pub force: u8,
    /// `-d`: also remove untracked directories.
    pub directories: bool,
    /// `-x`: also remove ignored files.
    pub ignored_too: bool,
    /// `-X`: remove only ignored files.
    pub ignored_only: bool,
    /// `-q` / `--quiet`.
    pub quiet: bool,
    /// `-e` / `--exclude` patterns.
    pub exclude: Vec<String>,
    /// `-i` / `--interactive`.
    pub interactive: bool,
    /// Paths to limit the clean to.
    pub pathspec: Vec<String>,
}

// ----- flag checks -----------------------------------------------------------------------

/// The first error among the checks of `-n` / `-f` and `-x` / `-X`. `require_force` is the
/// `clean.requireForce` setting when it is set to a boolean (it defaults to true).
pub open spec fn clean_flags_error_spec(a: Args, require_force: Option<bool>) -> Option<Seq<char>> {
    let required = match require_force {
        Some(v) => v,
        None => true,
    };
    if !a.dry_run && a.force == 0 && !a.interactive && required {
        Some("clean.requireForce defaults to true and neither -n nor -f given; refusing to clean"@)
    } else if a.ignored_too && a.ignored_only {
        Some("-x and -X cannot be used together"@)
    } else {
        None
    }
}

/// The error `clean` stops with before looking at any file, if any: neither `-n` nor `-f`
/// while `clean.requireForce` holds, or `-x` together with `-X`.
pub fn clean_flags_error(args: &Args, require_force: Option<bool>) -> (r: Option<String>)
    ensures
        match r {
            Some(e) => clean_flags_error_spec(*args, require_force) == Some(e@),
            None => clean_flags_error_spec(*args, require_force) is None,
        },
{
    let required = match require_force {
        Some(v) => v,
        None => true,
    };
    if !args.dry_run && args.force == 0 && !args.interactive && required {
        Some("clean.requireForce defaults to true and neither -n nor -f given; refusing to clean".to_owned())
    } else if args.ignored_too && args.ignored_only {
        Some("-x and -X cannot be used together".to_owned())
    } else {
        None
    }
}

/// Whether `clean` removes a path, once the ignore rules have said whether it is `ignored`:
/// with `-X` only ignored paths (or, when a plain `-e` names the path's directory, only paths
/// that are not ignored); with `-x` every path; else only paths that are not ignored.
pub open spec fn include_for_clean_spec(a: Args, rel: Seq<char>, ignored: bool) -> bool {
    if a.ignored_only {
        if a.exclude.len() > 0 && exclude_expands(rel, views(a.exclude@)) {
            !ignored
        } else {
            ignored
        }
    } else if a.ignored_too {
        true
    } else {
        !ignored
    }
}

/// Whether `clean` removes `rel_path` (see `include_for_clean_spec`).
pub fn include_path_for_clean(args: &Args, rel_path: &str, ignored: bool) -> (r: bool)
    ensures
        r == include_for_clean_spec(*args, rel_path@, ignored),
{
    if args.ignored_only {
        if args.exclude.len() > 0 && clean_exclude_expands_non_ignored(rel_path, args.exclude.as_slice()) {
            !ignored
        } else {
            ignored
        }
    } else if args.ignored_too {
        true
    } else {
        !ignored
    }
}

/// `s` holds a glob metacharacter: `*`, `?` or `[`.
pub open spec fn glob_meta(s: Seq<char>) -> bool {
    s.contains('*') || s.contains('?') || s.contains('[')
}

pub fn has_glob_meta(s: &str) -> (r: bool)
    ensures
        r == glob_meta(s@),
{
    let v = chars_of(s);
    let mut k: usize = 0;
    while k < v.len()
        invariant
            v@ == s@,
            k <= v@.len(),
            forall|j: int| 0 <= j < k ==> v@[j] != '*' && v@[j] != '?' && v@[j] != '[',
        decreases v@.len() - k,
    {
        let c = v[k];
        if c == '*' || c == '?' || c == '[' {
            assert(s@[k as int] == c);
            return true;
        }
        k = k + 1;
    }
    assert(!glob_meta(s@)) by {
        if s@.contains('*') {
            let j = choose|j: int| 0 <= j < s@.len() && s@[j] == '*';
            assert(v@[j] == '*');
        }
        if s@.contains('?') {
            let j = choose|j: int| 0 <= j < s@.len() && s@[j] == '?';
            assert(v@[j] == '?');
        }
        if s@.contains('[') {
            let j = choose|j: int| 0 <= j < s@.len() && s@[j] == '[';
            assert(v@[j] == '[');
        }
    }
    false
}

pub open spec fn is_slash() -> spec_fn(char) -> bool {
    |c: char| c == '/'
}

/// `s` without its trailing slashes.
pub open spec fn no_trailing_slash(s: Seq<char>) -> Seq<char> {
    trim_trailing(s, is_slash())
}

/// `v` without its trailing slashes.
fn strip_trailing_slashes(v: &Vec<char>) -> (r: Vec<char>)
    ensures
        r@ == no_trailing_slash(v@),
{
    let mut end = v.len();
    assert(v@.take(v@.len() as int) =~= v@);
    while end > 0 && v[end - 1] == '/'
        invariant
            end <= v@.len(),
            trim_trailing(v@.take(end as int), is_slash()) == trim_trailing(v@, is_slash()),
        decreases end,
    {
        assert(v@.take(end as int).drop_last() =~= v@.take(end - 1));
        end = end - 1;
    }
    let mut r: Vec<char> = Vec::new();
    push_range(&mut r, v, 0, end);
    assert(r@ =~= v@.take(end as int));
    r
}

/// A pathspec and a path are equal, also when they differ only in trailing slashes.
pub fn pathspecs_equal(spec: &str, rel: &str) -> (r: bool)
    ensures
        r == (spec@ == rel@ || no_trailing_slash(spec@) == no_trailing_slash(rel@)),
{
    let s = chars_of(spec);
    let p = chars_of(rel);
    if seq_eq(&s, &p) {
        return true;
    }
    let s2 = strip_trailing_slashes(&s);
    let p2 = strip_trailing_slashes(&p);
    seq_eq(&s2, &p2)
}

/// A path relative to the walk, made relative to the repository: `<prefix>/<rel>` when the
/// current directory's prefix is not empty.
pub open spec fn under_prefix(prefix: Option<Seq<char>>, rel: Seq<char>) -> Seq<char> {
    match prefix {
        Some(p) => if p.len() > 0 {
            p + seq!['/'] + rel
        } else {
            rel
        },
        None => rel,
    }
}

pub fn repo_relative_under_walk(cwd_prefix: Option<&str>, rel_from_walk: &str) -> (r: String)
    ensures
        r@ == under_prefix(
            match cwd_prefix {
                Some(p) => Some(p@),
                None => None,
            },
            rel_from_walk@,
        ),
{
    match cwd_prefix {
        Some(p) => {
            let pv = chars_of(p);
            if pv.len() > 0 {
                let mut out = pv;
                out.push('/');
                let rv = chars_of(rel_from_walk);
                push_all(&mut out, &rv);
                return string_all(&out);
            }
            rel_from_walk.to_owned()
        },
        None => rel_from_walk.to_owned(),
    }
}

/// `rel` is `base` or lies under `base/`.
pub open spec fn at_or_under(rel: Seq<char>, base: Seq<char>) -> bool {
    rel == base || starts_with(rel, base + seq!['/'])
}

fn is_at_or_under(rel: &Vec<char>, base: &Vec<char>) -> (r: bool)
    ensures
        r == at_or_under(rel@, base@),
{
    if seq_eq(rel, base) {
        return true;
    }
    let mut b2 = base.clone();
    b2.push('/');
    assert(b2@ =~= base@ + seq!['/']);
    has_prefix(rel, &b2)
}

/// An exclude pattern that is a plain name (no glob characters, no `/`).
pub open spec fn plain_name(pat: Seq<char>) -> bool {
    !glob_meta(pat) && !pat.contains('/')
}

fn has_slash(v: &Vec<char>) -> (r: bool)
    ensures
        r == v@.contains('/'),
{
    let mut k: usize = 0;
    while k < v.len()
        invariant
            k <= v@.len(),
            forall|j: int| 0 <= j < k ==> v@[j] != '/',
        decreases v@.len() - k,
    {
        if v[k] == '/' {
            return true;
        }
        k = k + 1;
    }
    false
}

/// With `clean -X`, a plain `-e <dir>` also removes the untracked files at or under that
/// directory that are not ignored.
pub open spec fn exclude_expands(rel: Seq<char>, excludes: Seq<Seq<char>>) -> bool {
    exists|k: int|
        0 <= k < excludes.len() && plain_name(#[trigger] excludes[k]) && at_or_under(
            rel,
            no_trailing_slash(excludes[k]),
        )
}

pub fn clean_exclude_expands_non_ignored(rel_path: &str, excludes: &[String]) -> (r: bool)
    ensures
        r == exclude_expands(rel_path@, views(excludes@)),
{
    let ghost ev = views(excludes@);
    let rel = chars_of(rel_path);
    let mut k: usize = 0;
    while k < excludes.len()
        invariant
            ev == views(excludes@),
            rel@ == rel_path@,
            k <= ev.len(),
            forall|j: int|
                0 <= j < k ==> !(plain_name(#[trigger] ev[j]) && at_or_under(rel@, no_trailing_slash(ev[j]))),
        decreases ev.len() - k,
    {
        let pat = chars_of(excludes[k].as_str());
        assert(pat@ == ev[k as int]);
        if !has_glob_meta(excludes[k].as_str()) && !has_slash(&pat) {
            let base = strip_trailing_slashes(&pat);
            if is_at_or_under(&rel, &base) {
                return true;
            }
        }
        k = k + 1;
    }
    false
}

/// A plain exclude name (not empty once its trailing slashes go) that `rel` equals or lies
/// under.
pub open spec fn exclude_blocks(rel: Seq<char>, excludes: Seq<Seq<char>>) -> bool {
    exists|k: int|
        0 <= k < excludes.len() && plain_name(#[trigger] excludes[k]) && no_trailing_slash(excludes[k]).len()
            > 0 && at_or_under(rel, no_trailing_slash(excludes[k]))
}

pub fn exclude_plain_prefix_blocks_path(rel: &str, excludes: &[String]) -> (r: bool)
    ensures
        r == exclude_blocks(rel@, views(excludes@)),
{
    let ghost ev = views(excludes@);
    let rv = chars_of(rel);
    let mut k: usize = 0;
    while k < excludes.len()
        invariant
            ev == views(excludes@),
            rv@ == rel@,
            k <= ev.len(),
            forall|j: int|
                0 <= j < k ==> !(plain_name(#[trigger] ev[j]) && no_trailing_slash(ev[j]).len() > 0
                    && at_or_under(rv@, no_trailing_slash(ev[j]))),
        decreases ev.len() - k,
    {
        let pat = chars_of(excludes[k].as_str());
        assert(pat@ == ev[k as int]);
        if !has_glob_meta(excludes[k].as_str()) && !has_slash(&pat) {
            let base = strip_trailing_slashes(&pat);
            if base.len() > 0 && is_at_or_under(&rv, &base) {
                return true;
            }
        }
        k = k + 1;
    }
    false
}

/// `rel` is a configured submodule path (trailing slashes aside, not empty) or lies under one.
pub open spec fn under_submodule(rel: Seq<char>, paths: Seq<Seq<char>>) -> bool {
    exists|k: int|
        0 <= k < paths.len() && no_trailing_slash(#[trigger] paths[k]).len() > 0 && at_or_under(
            rel,
            no_trailing_slash(paths[k]),
        )
}

pub fn path_under_configured_submodule(rel: &str, submodule_paths: &[String]) -> (r: bool)
    ensures
        r == under_submodule(rel@, views(submodule_paths@)),
{
    let ghost pv = views(submodule_paths@);
    let rv = chars_of(rel);
    let mut k: usize = 0;
    while k < submodule_paths.len()
        invariant
            pv == views(submodule_paths@),
            rv@ == rel@,
            k <= pv.len(),
            forall|j: int|
                0 <= j < k ==> !(no_trailing_slash(#[trigger] pv[j]).len() > 0 && at_or_under(
                    rv@,
                    no_trailing_slash(pv[j]),
                )),
        decreases pv.len() - k,
    {
        let p = chars_of(submodule_paths[k].as_str());
        assert(p@ == pv[k as int]);
        let base = strip_trailing_slashes(&p);
        if base.len() > 0 && is_at_or_under(&rv, &base) {
            return true;
        }
        k = k + 1;
    }
    false
}

/// The last `/`-separated segment of a path.
pub open spec fn basename_of(path: Seq<char>) -> Seq<char> {
    match rfind(path, seq!['/']) {
        Some(p) => path.subrange(p + 1, path.len() as int),
        None => path,
    }
}

/// `clean -e` matching after the fact: the pattern matches the path's last segment or the
/// whole path (glob matching only, no directory prefixes).
pub fn matches_exclude_glob_only(path: &str, pattern: &str) -> (r: bool)
    ensures
        r == (wildcard(vstd::utf8::encode_utf8(basename_of(path@)), pattern.spec_bytes()) || wildcard(
            path.spec_bytes(),
            pattern.spec_bytes(),
        )),
{
    let v = chars_of(path);
    let slash = vec!['/'];
    assert(slash@ =~= seq!['/']);
    let n = v.len();
    let start = match rfind_all(&v, &slash) {
        Some(p) => {
            proof {
                crate::text::lemma_rfind_upto_props(v@, slash@, v@.len() - slash@.len());
                assert(crate::text::occurs_at(v@, slash@, p as int));
            }
            p + 1
        },
        None => 0,
    };
    let base = string_of(&v, start, n);
    assert(start == 0 ==> v@.subrange(0, n as int) =~= v@);
    glob_match(base.as_str(), pattern) || glob_match(path, pattern)
}

/// `HH:MM:SS.uuuuuu` of the time of day (UTC) for a Unix time in seconds and microseconds.
pub open spec fn clock_text(total_secs: nat, micros: nat) -> Seq<char> {
    let d = total_secs % 86400;
    zero_pad(nat_text(d / 3600), 2) + seq![':'] + zero_pad(nat_text((d % 3600) / 60), 2) + seq![':']
        + zero_pad(nat_text(d % 60), 2) + seq!['.'] + zero_pad(nat_text(micros), 6)
}

/// The time-of-day stamp that trace2 perf lines start with.
pub fn trace2_perf_clock(total_secs: u64, micros: u32) -> (r: String)
    ensures
        r@ == clock_text(total_secs as nat, micros as nat),
{
    let d = total_secs % 86400;
    let mut out: Vec<char> = Vec::new();
    push_u64_text_pad2(&mut out, d / 3600);
    out.push(':');
    push_u64_text_pad2(&mut out, (d % 3600) / 60);
    out.push(':');
    push_u64_text_pad2(&mut out, d % 60);
    out.push('.');
    let mut digits: Vec<char> = Vec::new();
    crate::text::push_u64_text(&mut digits, micros as u64);
    let mut pad: usize = digits.len();
    let ghost dv = digits@;
    let mut zeros: Vec<char> = Vec::new();
    while pad < 6
        invariant
            digits@ == dv,
            dv.len() <= pad <= 6 || (pad == dv.len() && pad >= 6),
            zeros@ == Seq::new((pad - dv.len()) as nat, |i: int| '0'),
        decreases 6 - pad,
    {
        zeros.push('0');
        pad = pad + 1;
        assert(zeros@ =~= Seq::new((pad - dv.len()) as nat, |i: int| '0'));
    }
    push_all(&mut out, &zeros);
    push_all(&mut out, &digits);
    assert(zeros@ + digits@ =~= zero_pad(nat_text(micros as nat), 6));
    assert(out@ =~= clock_text(total_secs as nat, micros as nat));
    string_all(&out)
}

// ----- paths as lists of components -------------------------------------------------------

/// Number of leading components that `a` and `b` share.
pub open spec fn shared_prefix_len(a: Seq<Seq<char>>, b: Seq<Seq<char>>, i: int) -> int
    decreases a.len() - i,
{
    if i < 0 || i >= a.len() || i >= b.len() || a[i] != b[i] {
        i
    } else {
        shared_prefix_len(a, b, i + 1)
    }
}

/// The components of the way from `from` to `to`: a `..` for each component of `from` past
/// the shared prefix, then the rest of `to`.
pub open spec fn relative_parts(from: Seq<Seq<char>>, to: Seq<Seq<char>>) -> Seq<Seq<char>> {
    let c = shared_prefix_len(from, to, 0);
    Seq::new((from.len() - c) as nat, |i: int| ".."@) + to.subrange(c, to.len() as int)
}

/// The relative path from directory `from` to path `to`, both given by the normal components
/// of their absolute forms: `..` segments, then the rest, joined with `/`; `.` when there is
/// nothing to write.
pub open spec fn relative_path(from: Seq<Seq<char>>, to: Seq<Seq<char>>) -> Seq<char> {
    let parts = relative_parts(from, to);
    if parts.len() == 0 {
        "."@
    } else {
        join(parts, "/"@)
    }
}

proof fn lemma_shared_prefix(a: Seq<Seq<char>>, b: Seq<Seq<char>>, i: int)
    requires
        0 <= i <= a.len(),
        i <= b.len(),
    ensures
        i <= shared_prefix_len(a, b, i) <= a.len(),
        shared_prefix_len(a, b, i) <= b.len(),
    decreases a.len() - i,
{
    if i < a.len() && i < b.len() && a[i] == b[i] {
        lemma_shared_prefix(a, b, i + 1);
    }
}

/// The character sequences of a list of character vectors.
pub open spec fn char_views(v: Seq<Vec<char>>) -> Seq<Seq<char>> {
    v.map_values(|p: Vec<char>| p@)
}

/// Appends `parts` joined with `/` to `out`.
fn push_joined(out: &mut Vec<char>, parts: &Vec<Vec<char>>)
    ensures
        final(out)@ == old(out)@ + join(char_views(parts@), "/"@),
{
    let ghost pv = char_views(parts@);
    let ghost base = out@;
    proof {
        reveal_strlit("/");
    }
    if parts.len() == 0 {
        assert(out@ =~= base + join(pv, "/"@));
        return;
    }
    push_all(out, &parts[0]);
    assert(pv.take(1) =~= seq![pv[0]]);
    let mut j: usize = 1;
    while j < parts.len()
        invariant
            1 <= j <= parts@.len(),
            pv == char_views(parts@),
            out@ == base + join(pv.take(j as int), "/"@),
        decreases parts@.len() - j,
    {
        out.push('/');
        push_all(out, &parts[j]);
        proof {
            reveal_strlit("/");
            assert(pv.take(j + 1).drop_last() =~= pv.take(j as int));
            assert(pv.take(j + 1).last() == pv[j as int]);
        }
        j = j + 1;
        assert(out@ =~= base + join(pv.take(j as int), "/"@));
    }
    assert(pv.take(pv.len() as int) =~= pv);
}

fn char_lists(v: &[String]) -> (r: Vec<Vec<char>>)
    ensures
        char_views(r@) == views(v@),
{
    let mut r: Vec<Vec<char>> = Vec::new();
    let mut i: usize = 0;
    while i < v.len()
        invariant
            i <= v@.len(),
            char_views(r@) == views(v@).take(i as int),
        decreases v@.len() - i,
    {
        let c = chars_of(v[i].as_str());
        let ghost old_r = r@;
        r.push(c);
        proof {
            assert(char_views(r@) =~= char_views(old_r).push(c@));
            assert(views(v@).take(i + 1) =~= views(v@).take(i as int).push(v@[i as int]@));
        }
        i = i + 1;
    }
    assert(views(v@).take(v@.len() as int) =~= views(v@));
    r
}

/// Following path components from `base`: `..` goes up one directory, any other component
/// goes down into it.
pub open spec fn follow(base: Seq<Seq<char>>, parts: Seq<Seq<char>>) -> Seq<Seq<char>>
    decreases parts.len(),
{
    if parts.len() == 0 {
        base
    } else {
        let next = if parts[0] == ".."@ {
            base.drop_last()
        } else {
            base.push(parts[0])
        };
        follow(next, parts.drop_first())
    }
}

proof fn lemma_shared_prefix_is(from: Seq<Seq<char>>, to: Seq<Seq<char>>, k: int, i: int)
    requires
        0 <= i <= k <= from.len(),
        k <= to.len(),
        forall|j: int| 0 <= j < k ==> from[j] == to[j],
        k == from.len() || k == to.len() || from[k] != to[k],
    ensures
        shared_prefix_len(from, to, i) == k,
    decreases k - i,
{
    if i < k {
        lemma_shared_prefix_is(from, to, k, i + 1);
    }
}

proof fn lemma_follow_ups(base: Seq<Seq<char>>, n: nat, rest: Seq<Seq<char>>)
    requires
        n <= base.len(),
    ensures
        follow(base, Seq::new(n, |i: int| ".."@) + rest) == follow(base.take(base.len() - n), rest),
    decreases n,
{
    let ups = Seq::new(n, |i: int| ".."@);
    if n == 0 {
        assert(ups + rest =~= rest);
        assert(base.take(base.len() as int) =~= base);
    } else {
        assert((ups + rest)[0] == ".."@);
        assert((ups + rest).drop_first() =~= Seq::new((n - 1) as nat, |i: int| ".."@) + rest);
        lemma_follow_ups(base.drop_last(), (n - 1) as nat, rest);
        assert(base.drop_last().take(base.drop_last().len() - (n - 1)) =~= base.take(base.len() - n));
    }
}

proof fn lemma_follow_down(base: Seq<Seq<char>>, rest: Seq<Seq<char>>)
    requires
        forall|j: int| 0 <= j < rest.len() ==> rest[j] != ".."@,
    ensures
        follow(base, rest) == base + rest,
    decreases rest.len(),
{
    if rest.len() == 0 {
        assert(base + rest =~= base);
    } else {
        lemma_follow_down(base.push(rest[0]), rest.drop_first());
        assert(base.push(rest[0]) + rest.drop_first() =~= base + rest);
    }
}

/// The way from `from` to `to` climbs out of every component of `from` past the prefix the
/// two share, one `..` each, and then goes down the rest of `to`; following it from `from`
/// therefore reaches `to` (when no component of `to` is itself `..`).
pub proof fn law_relative_parts(from: Seq<Seq<char>>, to: Seq<Seq<char>>, k: int)
    requires
        0 <= k <= from.len(),
        k <= to.len(),
        forall|j: int| 0 <= j < k ==> from[j] == to[j],
        k == from.len() || k == to.len() || from[k] != to[k],
    ensures
        relative_parts(from, to).len() == from.len() - k + to.len() - k,
        forall|j: int| 0 <= j < from.len() - k ==> #[trigger] relative_parts(from, to)[j] == ".."@,
        forall|j: int|
            from.len() - k <= j < from.len() - k + to.len() - k ==> #[trigger] relative_parts(from, to)[j] == to[j
                - from.len() + 2 * k],
        (forall|j: int| 0 <= j < to.len() ==> to[j] != ".."@) ==> follow(from, relative_parts(from, to)) == to,
{
    lemma_shared_prefix_is(from, to, k, 0);
    let rest = to.subrange(k, to.len() as int);
    if forall|j: int| 0 <= j < to.len() ==> to[j] != ".."@ {
        lemma_follow_ups(from, (from.len() - k) as nat, rest);
        assert forall|j: int| 0 <= j < rest.len() implies rest[j] != ".."@ by {
            assert(rest[j] == to[k + j]);
        }
        lemma_follow_down(from.take(k), rest);
        assert(from.take(k) + rest =~= to);
    }
}

proof fn lemma_shared_prefix_upto(a: Seq<Seq<char>>, b: Seq<Seq<char>>, i: int, j: int)
    requires
        0 <= i <= j < shared_prefix_len(a, b, i),
    ensures
        a[j] == b[j],
    decreases j - i,
{
    if i < j {
        lemma_shared_prefix_upto(a, b, i + 1, j);
    }
}

/// The relative path is `.` exactly when the two paths are the same.
pub proof fn law_relative_path_dot(from: Seq<Seq<char>>, to: Seq<Seq<char>>)
    ensures
        (relative_parts(from, to).len() == 0) == (from == to),
{
    let c = shared_prefix_len(from, to, 0);
    if from == to {
        lemma_shared_prefix_self(from, 0);
    } else if relative_parts(from, to).len() == 0 {
        lemma_shared_prefix(from, to, 0);
        assert(from.len() == c && to.len() == c);
        assert forall|j: int| 0 <= j < c implies from[j] == to[j] by {
            lemma_shared_prefix_upto(from, to, 0, j);
        }
        assert(from =~= to);
    }
}

/// The relative path from directory `from` to `to` (Git-style `../` segments), both given as
/// the normal components of their canonical absolute paths.
pub fn pathdiff_relative(from: &[String], to: &[String]) -> (r: String)
    ensures
        r@ == relative_path(views(from@), views(to@)),
{
    let fv = char_lists(from);
    let tv = char_lists(to);
    let ghost f = views(from@);
    let ghost t = views(to@);
    let mut c: usize = 0;
    while c < fv.len() && c < tv.len() && seq_eq(&fv[c], &tv[c])
        invariant
            f == char_views(fv@),
            t == char_views(tv@),
            c <= fv@.len(),
            c <= tv@.len(),
            shared_prefix_len(f, t, c as int) == shared_prefix_len(f, t, 0),
        decreases fv@.len() - c,
    {
        assert(f[c as int] == fv@[c as int]@);
        assert(t[c as int] == tv@[c as int]@);
        c = c + 1;
    }
    proof {
        if c < fv@.len() && c < tv@.len() {
            assert(f[c as int] == fv@[c as int]@);
            assert(t[c as int] == tv@[c as int]@);
        }
    }
    let mut parts: Vec<Vec<char>> = Vec::new();
    let mut k = c;
    while k < fv.len()
        invariant
            c <= k <= fv@.len(),
            parts@.len() == k - c,
            forall|q: int| 0 <= q < parts@.len() ==> (#[trigger] parts@[q])@ == ".."@,
        decreases fv@.len() - k,
    {
        parts.push(chars_of(".."));
        k = k + 1;
    }
    let ghost ups = parts@.len();
    let mut m = c;
    while m < tv.len()
        invariant
            c <= m <= tv@.len(),
            t == char_views(tv@),
            parts@.len() == ups + (m - c),
            forall|q: int| 0 <= q < ups ==> (#[trigger] parts@[q])@ == ".."@,
            forall|q: int| ups <= q < parts@.len() ==> (#[trigger] parts@[q])@ == t[c + (q - ups)],
        decreases tv@.len() - m,
    {
        let mut piece: Vec<char> = Vec::new();
        push_all(&mut piece, &tv[m]);
        assert(piece@ =~= tv@[m as int]@);
        parts.push(piece);
        assert(tv@[m as int]@ == t[m as int]);
        m = m + 1;
    }
    let ghost want = relative_parts(f, t);
    assert(char_views(parts@) =~= want);
    if parts.len() == 0 {
        return ".".to_owned();
    }
    let mut out: Vec<char> = Vec::new();
    push_joined(&mut out, &parts);
    assert(out@ =~= join(want, "/"@));
    string_all(&out)
}

/// The path joined from normal components with `/` (what `path_to_slash` gives).
pub fn path_to_slash(parts: &[String]) -> (r: String)
    ensures
        r@ == join(views(parts@), "/"@),
{
    let pv = char_lists(parts);
    let mut out: Vec<char> = Vec::new();
    push_joined(&mut out, &pv);
    assert(out@ =~= join(views(parts@), "/"@));
    string_all(&out)
}

/// `s` with every backslash made a slash.
pub open spec fn slashes_forward(s: Seq<char>) -> Seq<char> {
    s.map_values(|c: char| if c == '\\' { '/' } else { c })
}

/// A path of the work tree as shown to the user: relative to the current directory, with
/// forward slashes.
pub fn path_for_clean_display(cwd: &[String], target: &[String]) -> (r: String)
    ensures
        r@ == slashes_forward(relative_path(views(cwd@), views(target@))),
{
    let rel = pathdiff_relative(cwd, target);
    let v = chars_of(rel.as_str());
    let mut out: Vec<char> = Vec::new();
    let mut k: usize = 0;
    while k < v.len()
        invariant
            k <= v@.len(),
            out@ == slashes_forward(v@.take(k as int)),
        decreases v@.len() - k,
    {
        let c = v[k];
        out.push(if c == '\\' { '/' } else { c });
        k = k + 1;
        assert(out@ =~= slashes_forward(v@.take(k as int)));
    }
    assert(v@.take(v@.len() as int) =~= v@);
    string_all(&out)
}

/// The current directory relative to the work tree, both given as the normal components of
/// their canonical paths: `None` when they are the same or the current directory is not
/// inside the work tree.
pub open spec fn cwd_prefix_spec(cwd: Seq<Seq<char>>, wt: Seq<Seq<char>>) -> Option<Seq<char>> {
    if cwd == wt {
        None
    } else if wt.len() <= cwd.len() && cwd.take(wt.len() as int) == wt {
        Some(join(cwd.subrange(wt.len() as int, cwd.len() as int), "/"@))
    } else {
        None
    }
}

pub fn pathdiff(cwd: &[String], work_tree: &[String]) -> (r: Option<String>)
    ensures
        crate::cherry_pick::opt_view(r) == cwd_prefix_spec(views(cwd@), views(work_tree@)),
{
    let cv = char_lists(cwd);
    let wv = char_lists(work_tree);
    let ghost c = views(cwd@);
    let ghost w = views(work_tree@);
    let mut k: usize = 0;
    while k < cv.len() && k < wv.len() && seq_eq(&cv[k], &wv[k])
        invariant
            c == char_views(cv@),
            w == char_views(wv@),
            k <= cv@.len(),
            k <= wv@.len(),
            forall|q: int| 0 <= q < k ==> c[q] == w[q],
        decreases cv@.len() - k,
    {
        assert(c[k as int] == cv@[k as int]@);
        assert(w[k as int] == wv@[k as int]@);
        k = k + 1;
    }
    proof {
        if k < cv@.len() && k < wv@.len() {
            assert(c[k as int] == cv@[k as int]@);
            assert(w[k as int] == wv@[k as int]@);
        }
    }
    if k == cv.len() && k == wv.len() {
        assert(c =~= w);
        return None;
    }
    if k < wv.len() {
        assert(!(w.len() <= c.len() && c.take(w.len() as int) == w)) by {
            if w.len() <= c.len() && c.take(w.len() as int) == w {
                assert(c.take(w.len() as int)[k as int] == c[k as int]);
            }
        }
        assert(c != w) by {
            if c == w {
                assert(c[k as int] == w[k as int]);
            }
        }
        return None;
    }
    assert(c.take(w.len() as int) =~= w);
    assert(c != w);
    let mut rest: Vec<Vec<char>> = Vec::new();
    let mut m = k;
    while m < cv.len()
        invariant
            k <= m <= cv@.len(),
            c == char_views(cv@),
            char_views(rest@) == c.subrange(k as int, m as int),
        decreases cv@.len() - m,
    {
        let mut piece: Vec<char> = Vec::new();
        push_all(&mut piece, &cv[m]);
        assert(piece@ =~= cv@[m as int]@);
        let ghost old_rest = rest@;
        rest.push(piece);
        proof {
            assert(char_views(rest@) =~= char_views(old_rest).push(piece@));
            assert(c.subrange(k as int, m + 1) =~= c.subrange(k as int, m as int).push(c[m as int]));
        }
        m = m + 1;
    }
    let mut out: Vec<char> = Vec::new();
    push_joined(&mut out, &rest);
    assert(out@ =~= join(c.subrange(w.len() as int, c.len() as int), "/"@));
    Some(string_all(&out))
}

/// Walking up from a directory (`chain` lists it and its ancestors, nearest first), the walk
/// meets a nested repository (`nested[i]` tells whether `chain[i]` holds one) before the work
/// tree.
pub open spec fn nested_before_work_tree(chain: Seq<Seq<char>>, nested: Seq<bool>, wt: Seq<char>, i: int) -> bool
    decreases chain.len() - i,
{
    if i < 0 || i >= chain.len() || i >= nested.len() {
        false
    } else if chain[i] == wt {
        false
    } else if nested[i] {
        true
    } else {
        nested_before_work_tree(chain, nested, wt, i + 1)
    }
}

pub fn is_strictly_inside_nested_git_work_tree(chain: &[String], nested: &[bool], work_tree: &str) -> (r: bool)
    requires
        chain@.len() == nested@.len(),
    ensures
        r == nested_before_work_tree(views(chain@), nested@, work_tree@, 0),
{
    let ghost cv = views(chain@);
    let wt = chars_of(work_tree);
    let mut i: usize = 0;
    while i < chain.len()
        invariant
            cv == views(chain@),
            chain@.len() == nested@.len(),
            wt@ == work_tree@,
            i <= chain@.len(),
            nested_before_work_tree(cv, nested@, wt@, i as int) == nested_before_work_tree(cv, nested@, wt@, 0),
        decreases chain@.len() - i,
    {
        let c = chars_of(chain[i].as_str());
        assert(c@ == cv[i as int]);
        if seq_eq(&c, &wt) {
            return false;
        }
        if nested[i] {
            return true;
        }
        i = i + 1;
    }
    false
}

/// A directory that nobody may read or enter (`mode & 0o555 == 0`) but that holds entries.
pub fn unreadable_non_empty_dir_by_mode(mode: u32, has_entries: bool) -> (r: bool)
    ensures
        r == ((mode & 0o555u32) == 0 && has_entries),
{
    if mode & 0o555u32 != 0 {
        return false;
    }
    has_entries
}

/// The non-empty `/`-separated parts of `s` from index `i` on, given the part being read and
/// the parts found so far (`split('/')` without the empty parts).
pub open spec fn parts_from(s: Seq<char>, i: int, cur: Seq<char>, acc: Seq<Seq<char>>) -> Seq<Seq<char>>
    decreases s.len() - i,
{
    if i < 0 || i >= s.len() {
        if cur.len() > 0 {
            acc.push(cur)
        } else {
            acc
        }
    } else if s[i] == '/' {
        parts_from(s, i + 1, Seq::empty(), if cur.len() > 0 { acc.push(cur) } else { acc })
    } else {
        parts_from(s, i + 1, cur.push(s[i]), acc)
    }
}

/// The directories to probe for a submodule above a path: the first part, the first two
/// parts joined with `/`, and so on, down to the whole path.
pub open spec fn probe_prefixes(rel: Seq<char>) -> Seq<Seq<char>> {
    let parts = parts_from(rel, 0, Seq::empty(), Seq::empty());
    Seq::new(parts.len(), |i: int| join(parts.take(i + 1), "/"@))
}

/// The prefixes of `rel` at which a submodule's work tree may start, outermost first.
pub fn submodule_probe_prefixes(rel: &str) -> (r: Vec<String>)
    ensures
        views(r@) == probe_prefixes(rel@),
{
    let v = chars_of(rel);
    let mut parts: Vec<Vec<char>> = Vec::new();
    let mut cur: Vec<char> = Vec::new();
    let mut i: usize = 0;
    assert(char_views(parts@) =~= Seq::<Seq<char>>::empty());
    assert(cur@ =~= Seq::<char>::empty());
    while i < v.len()
        invariant
            v@ == rel@,
            i <= v@.len(),
            parts_from(v@, i as int, cur@, char_views(parts@)) == parts_from(v@, 0, Seq::empty(), Seq::empty()),
        decreases v@.len() - i,
    {
        if v[i] == '/' {
            if cur.len() > 0 {
                let ghost before = parts@;
                let done = cur;
                parts.push(done);
                assert(char_views(parts@) =~= char_views(before).push(done@));
            }
            cur = Vec::new();
        } else {
            cur.push(v[i]);
        }
        i = i + 1;
    }
    if cur.len() > 0 {
        let ghost before = parts@;
        let done = cur;
        parts.push(done);
        assert(char_views(parts@) =~= char_views(before).push(done@));
    }
    let ghost pv = char_views(parts@);
    assert(pv == parts_from(rel@, 0, Seq::empty(), Seq::empty()));
    let mut out: Vec<String> = Vec::new();
    let mut acc: Vec<char> = Vec::new();
    let mut k: usize = 0;
    proof {
        reveal_strlit("/");
    }
    while k < parts.len()
        invariant
            pv == char_views(parts@),
            k <= pv.len(),
            views(out@) =~= Seq::new(k as nat, |i: int| join(pv.take(i + 1), "/"@)),
            k > 0 ==> acc@ == join(pv.take(k as int), "/"@),
            k == 0 ==> acc@ == Seq::<char>::empty(),
        decreases pv.len() - k,
    {
        if k > 0 {
            acc.push('/');
        }
        push_all(&mut acc, &parts[k]);
        proof {
            reveal_strlit("/");
            if k == 0 {
                assert(pv.take(1) =~= seq![pv[0]]);
            } else {
                assert(pv.take(k + 1).drop_last() =~= pv.take(k as int));
                assert(pv.take(k + 1).last() == pv[k as int]);
            }
        }
        assert(acc@ =~= join(pv.take(k + 1), "/"@));
        let ghost before = out@;
        let s = string_all(&acc);
        out.push(s);
        proof {
            crate::text::lemma_views_push(before, s);
        }
        k = k + 1;
    }
    out
}

proof fn lemma_shared_prefix_self(a: Seq<Seq<char>>, i: int)
    requires
        0 <= i <= a.len(),
    ensures
        shared_prefix_len(a, a, i) == a.len(),
    decreases a.len() - i,
{
    if i < a.len() {
        lemma_shared_prefix_self(a, i + 1);
    }
}

/// The relative path from a directory to itself is `.`.
pub proof fn law_relative_path_to_self(p: Seq<Seq<char>>)
    ensures
        relative_path(p, p) == "."@,
{
    lemma_shared_prefix_self(p, 0);
    assert(relative_parts(p, p) =~= Seq::<Seq<char>>::empty());
}


// ----- the order of removal ----------------------------------------------------------------

/// The number of `/` in a path: its depth below the top of the work tree.
pub open spec fn slash_count(p: Seq<char>) -> nat
    decreases p.len(),
{
    if p.len() == 0 {
        0
    } else {
        slash_count(p.drop_last()) + if p.last() == '/' {
            1nat
        } else {
            0nat
        }
    }
}

/// `a` comes before `b` in the order of `str`: by code points, first difference first, a
/// prefix before what extends it (UTF-8 keeps the order of code points in its bytes).
pub open spec fn text_lt(a: Seq<char>, b: Seq<char>) -> bool
    decreases a.len(),
{
    if a.len() == 0 {
        b.len() > 0
    } else if b.len() == 0 {
        false
    } else if a[0] != b[0] {
        (a[0] as u32) < (b[0] as u32)
    } else {
        text_lt(a.drop_first(), b.drop_first())
    }
}

/// `a` is removed strictly before `b`: deeper paths first, then in the order of `str`.
pub open spec fn removed_before(a: Seq<char>, b: Seq<char>) -> bool {
    slash_count(a) > slash_count(b) || (slash_count(a) == slash_count(b) && text_lt(a, b))
}

/// `x` put into the ordered `s` after every entry that is not removed strictly after it.
pub open spec fn insert_for_removal(s: Seq<(Seq<char>, bool)>, x: (Seq<char>, bool)) -> Seq<(Seq<char>, bool)>
    decreases s.len(),
{
    if s.len() > 0 && removed_before(x.0, s.last().0) {
        insert_for_removal(s.drop_last(), x).push(s.last())
    } else {
        s.push(x)
    }
}

/// The entries in the order `clean` removes them: sorted by [`removed_before`], entries that
/// tie keeping their order (a stable sort).
pub open spec fn removal_order(es: Seq<(Seq<char>, bool)>) -> Seq<(Seq<char>, bool)>
    decreases es.len(),
{
    if es.len() == 0 {
        Seq::empty()
    } else {
        insert_for_removal(removal_order(es.drop_last()), es.last())
    }
}

/// No entry is removed strictly before one that comes earlier.
pub open spec fn ordered_for_removal(s: Seq<(Seq<char>, bool)>) -> bool {
    forall|i: int, j: int| 0 <= i < j < s.len() ==> !removed_before(#[trigger] s[j].0, #[trigger] s[i].0)
}

proof fn lemma_text_lt_facts(a: Seq<char>, b: Seq<char>, c: Seq<char>)
    ensures
        !text_lt(a, a),
        text_lt(a, b) ==> !text_lt(b, a),
        a != b ==> text_lt(a, b) || text_lt(b, a),
        text_lt(a, b) && text_lt(b, c) ==> text_lt(a, c),
    decreases a.len(),
{
    if a.len() > 0 && b.len() > 0 {
        vstd::utf8::char_u32_cast(a[0], a[0] as u32);
        vstd::utf8::char_u32_cast(b[0], b[0] as u32);
        if c.len() > 0 {
            lemma_text_lt_facts(a.drop_first(), b.drop_first(), c.drop_first());
        } else {
            lemma_text_lt_facts(a.drop_first(), b.drop_first(), c);
        }
        if a[0] == b[0] && a.drop_first() == b.drop_first() {
            assert forall|k: int| 0 <= k < a.len() implies a[k] == b[k] by {
                if k > 0 {
                    assert(a[k] == a.drop_first()[k - 1]);
                    assert(b[k] == b.drop_first()[k - 1]);
                }
            }
            assert(a =~= b);
        }
    } else if a.len() > 0 {
        lemma_text_lt_facts(a.drop_first(), b, c);
    } else if b.len() == 0 {
        assert(a =~= b);
    }
}

/// Not being removed strictly before is transitive.
proof fn lemma_not_before_trans(a: Seq<char>, b: Seq<char>, c: Seq<char>)
    requires
        !removed_before(a, b),
        !removed_before(b, c),
    ensures
        !removed_before(a, c),
{
    lemma_text_lt_facts(a, b, c);
    lemma_text_lt_facts(b, a, c);
    lemma_text_lt_facts(a, c, b);
    lemma_text_lt_facts(b, c, a);
    lemma_text_lt_facts(c, a, b);
    lemma_text_lt_facts(c, b, a);
}

proof fn lemma_insert_for_removal(s: Seq<(Seq<char>, bool)>, x: (Seq<char>, bool))
    requires
        ordered_for_removal(s),
    ensures
        ordered_for_removal(insert_for_removal(s, x)),
        insert_for_removal(s, x).to_multiset() == s.to_multiset().insert(x),
        forall|e: (Seq<char>, bool)| #[trigger] insert_for_removal(s, x).contains(e) ==> e == x || s.contains(e),
    decreases s.len(),
{
    broadcast use vstd::seq_lib::to_multiset_build;
    let r = insert_for_removal(s, x);
    if s.len() > 0 && removed_before(x.0, s.last().0) {
        let s0 = s.drop_last();
        let l = s.last();
        assert(s =~= s0.push(l));
        assert(ordered_for_removal(s0)) by {
            assert forall|i: int, j: int| 0 <= i < j < s0.len() implies !removed_before(
                #[trigger] s0[j].0,
                #[trigger] s0[i].0,
            ) by {
                assert(s0[j] == s[j] && s0[i] == s[i]);
            }
        }
        lemma_insert_for_removal(s0, x);
        let r0 = insert_for_removal(s0, x);
        assert(r == r0.push(l));
        lemma_text_lt_facts(x.0, l.0, l.0);
        assert forall|k: int| 0 <= k < r0.len() implies !removed_before(l.0, #[trigger] r0[k].0) by {
            assert(r0.contains(r0[k]));
            if r0[k] != x {
                let m = choose|m: int| 0 <= m < s0.len() && s0[m] == r0[k];
                assert(s[m] == s0[m]);
                assert(s[s.len() - 1] == l);
                assert(!removed_before(s[s.len() - 1].0, s[m].0));
            }
        }
        assert forall|i: int, j: int| 0 <= i < j < r.len() implies !removed_before(
            #[trigger] r[j].0,
            #[trigger] r[i].0,
        ) by {
            if j == r.len() - 1 {
                assert(r[j] == l);
                assert(r[i] == r0[i]);
            } else {
                assert(r[j] == r0[j] && r[i] == r0[i]);
            }
        }
        assert forall|e: (Seq<char>, bool)| #[trigger] r.contains(e) implies e == x || s.contains(e) by {
            let k = choose|k: int| 0 <= k < r.len() && r[k] == e;
            if k == r.len() - 1 {
                assert(s[s.len() - 1] == e);
            } else {
                assert(r0[k] == e);
                assert(r0.contains(e));
                if e != x {
                    let m = choose|m: int| 0 <= m < s0.len() && s0[m] == e;
                    assert(s[m] == e);
                }
            }
        }
    } else {
        assert(r == s.push(x));
        assert forall|i: int, j: int| 0 <= i < j < r.len() implies !removed_before(
            #[trigger] r[j].0,
            #[trigger] r[i].0,
        ) by {
            if j == r.len() - 1 {
                assert(r[j] == x && r[i] == s[i]);
                if i < s.len() - 1 {
                    assert(!removed_before(s[s.len() - 1].0, s[i].0));
                    lemma_not_before_trans(x.0, s[s.len() - 1].0, s[i].0);
                }
            } else {
                assert(r[j] == s[j] && r[i] == s[i]);
            }
        }
        assert forall|e: (Seq<char>, bool)| #[trigger] r.contains(e) implies e == x || s.contains(e) by {
            let k = choose|k: int| 0 <= k < r.len() && r[k] == e;
            if k < s.len() {
                assert(s[k] == e);
            }
        }
    }
}

/// The order of removal is a sorting: every entry is kept, as often as it came, and no entry
/// comes after one that is removed strictly after it.
pub proof fn law_removal_order_sorts(es: Seq<(Seq<char>, bool)>)
    ensures
        ordered_for_removal(removal_order(es)),
        removal_order(es).to_multiset() == es.to_multiset(),
    decreases es.len(),
{
    broadcast use vstd::seq_lib::to_multiset_build;
    if es.len() == 0 {
        assert(removal_order(es) =~= es);
    } else {
        law_removal_order_sorts(es.drop_last());
        lemma_insert_for_removal(removal_order(es.drop_last()), es.last());
        assert(es =~= es.drop_last().push(es.last()));
    }
}

pub open spec fn entry_views(es: Seq<(String, bool)>) -> Seq<(Seq<char>, bool)> {
    es.map_values(|e: (String, bool)| (e.0@, e.1))
}

fn slashes(p: &Vec<char>) -> (r: usize)
    ensures
        r == slash_count(p@),
{
    let mut c: usize = 0;
    let mut i: usize = 0;
    while i < p.len()
        invariant
            i <= p@.len(),
            c == slash_count(p@.take(i as int)),
            c <= i,
        decreases p@.len() - i,
    {
        assert(p@.take(i + 1).drop_last() =~= p@.take(i as int));
        if p[i] == '/' {
            c = c + 1;
        }
        i = i + 1;
    }
    assert(p@.take(p@.len() as int) =~= p@);
    c
}

fn text_less(a: &Vec<char>, b: &Vec<char>) -> (r: bool)
    ensures
        r == text_lt(a@, b@),
{
    let mut i: usize = 0;
    assert(a@.skip(0) =~= a@ && b@.skip(0) =~= b@);
    while i < a.len() && i < b.len()
        invariant
            i <= a@.len(),
            i <= b@.len(),
            text_lt(a@.skip(i as int), b@.skip(i as int)) == text_lt(a@, b@),
        decreases a@.len() - i,
    {
        if a[i] != b[i] {
            assert(a@.skip(i as int)[0] == a@[i as int] && b@.skip(i as int)[0] == b@[i as int]);
            return (a[i] as u32) < (b[i] as u32);
        }
        assert(a@.skip(i as int).drop_first() =~= a@.skip(i + 1));
        assert(b@.skip(i as int).drop_first() =~= b@.skip(i + 1));
        i = i + 1;
    }
    a.len() < b.len()
}

/// Inserting at the place found by scanning back past the entries that `x` goes before.
proof fn lemma_insert_for_removal_at(s: Seq<(Seq<char>, bool)>, x: (Seq<char>, bool), j: int)
    requires
        0 <= j <= s.len(),
        forall|k: int| j <= k < s.len() ==> removed_before(x.0, #[trigger] s[k].0),
        j == 0 || !removed_before(x.0, s[j - 1].0),
    ensures
        insert_for_removal(s, x) == s.insert(j, x),
    decreases s.len(),
{
    if j == s.len() {
        assert(s.insert(j, x) =~= s.push(x));
    } else {
        assert(removed_before(x.0, s[s.len() - 1].0));
        let s0 = s.drop_last();
        assert forall|k: int| j <= k < s0.len() implies removed_before(x.0, #[trigger] s0[k].0) by {
            assert(s0[k] == s[k]);
        }
        if j > 0 {
            assert(s0[j - 1] == s[j - 1]);
        }
        lemma_insert_for_removal_at(s0, x, j);
        assert(s0.insert(j, x).push(s.last()) =~= s.insert(j, x));
    }
}

/// Orders the paths that `clean` will remove: deeper paths first, then by name, entries that
/// tie keeping their order.
pub fn order_for_removal(entries: Vec<(String, bool)>) -> (r: Vec<(String, bool)>)
    ensures
        entry_views(r@) == removal_order(entry_views(entries@)),
{
    let ghost ev = entry_views(entries@);
    let mut out: Vec<(String, bool)> = Vec::new();
    let mut keys: Vec<(usize, Vec<char>)> = Vec::new();
    let mut i: usize = 0;
    assert(entry_views(out@) =~= removal_order(ev.take(0)));
    while i < entries.len()
        invariant
            ev == entry_views(entries@),
            i <= entries@.len(),
            entry_views(out@) == removal_order(ev.take(i as int)),
            keys@.len() == out@.len(),
            forall|k: int|
                0 <= k < keys@.len() ==> (#[trigger] keys@[k]).1@ == out@[k].0@ && keys@[k].0 == slash_count(
                    out@[k].0@,
                ),
        decreases entries@.len() - i,
    {
        let xv = chars_of(entries[i].0.as_str());
        let x = (string_all(&xv), entries[i].1);
        let xd = slashes(&xv);
        assert(entry_views(entries@)[i as int] == (entries@[i as int].0@, entries@[i as int].1));
        let ghost s = entry_views(out@);
        let ghost xe = ev[i as int];
        let mut j: usize = out.len();
        while j > 0 && (xd > keys[j - 1].0 || (xd == keys[j - 1].0 && text_less(&xv, &keys[j - 1].1)))
            invariant
                j <= out@.len(),
                s == entry_views(out@),
                xv@ == xe.0,
                xd == slash_count(xe.0),
                keys@.len() == out@.len(),
                forall|k: int|
                    0 <= k < keys@.len() ==> (#[trigger] keys@[k]).1@ == out@[k].0@ && keys@[k].0 == slash_count(
                        out@[k].0@,
                    ),
                forall|k: int| j <= k < s.len() ==> removed_before(xe.0, #[trigger] s[k].0),
            decreases j,
        {
            assert(s[j - 1] == (out@[j - 1].0@, out@[j - 1].1));
            j = j - 1;
        }
        proof {
            if j > 0 {
                assert(s[j - 1] == (out@[j - 1].0@, out@[j - 1].1));
            }
            lemma_insert_for_removal_at(s, xe, j as int);
            assert(ev.take(i + 1).drop_last() =~= ev.take(i as int));
            assert(ev.take(i + 1).last() == xe);
        }
        let ghost before = out@;
        let ghost kbefore = keys@;
        assert(x.0@ == entries@[i as int].0@ && x.1 == entries@[i as int].1);
        out.insert(j, x);
        keys.insert(j, (xd, xv));
        proof {
            assert(entry_views(out@) =~= s.insert(j as int, xe)) by {
                assert forall|k: int| 0 <= k < out@.len() implies #[trigger] entry_views(out@)[k] == s.insert(
                    j as int,
                    xe,
                )[k] by {
                    if k < j {
                        assert(out@[k] == before[k]);
                    } else if k > j {
                        assert(out@[k] == before[k - 1]);
                    }
                }
            }
            assert forall|k: int| 0 <= k < keys@.len() implies (#[trigger] keys@[k]).1@ == out@[k].0@
                && keys@[k].0 == slash_count(out@[k].0@) by {
                if k < j {
                    assert(keys@[k] == kbefore[k] && out@[k] == before[k]);
                } else if k > j {
                    assert(keys@[k] == kbefore[k - 1] && out@[k] == before[k - 1]);
                }
            }
        }
        i = i + 1;
    }
    assert(ev.take(ev.len() as int) =~= ev);
    out
}

} // verus!
