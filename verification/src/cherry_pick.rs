//! `cherry-pick`: argument preprocessing, option decisions and sequencer state text.
use vstd::prelude::*;
use crate::text::{
    all_digits, char_is_digit, chars_of, dec_val, eq_lit, find_at, has_prefix, join, lemma_rfind_upto_props,
    lemma_views_push, lines, nat_text, occurs_at, parse_decimal, push_all, push_range, push_u64_text, rfind,
    rfind_all, seq_eq, split_lines, starts_with, string_all, string_of, trim, trim_bounds, trim_end, views,
    ws_kept, all_hex, byte_len, is_ws, lead_len, trim_start, ws_lead, char_is_ws,
};
use crate::ident::{not_ws, word_len};
use crate::text::{ends_with, find, lemma_find_from_props, range_all_digits, parse_decimal as parse_usize};

verus! {

/// Arguments for `cherry-pick` (the option parser's result).
pub struct Args {
    /// Commits to cherry-pick (single commits or A..B ranges).
    pub commits: Vec<String>,
    /// `-x`: append "(cherry picked from commit <sha>)" to the message.
    pub append_source: bool,
    /// `-n` / `--no-commit`.
    pub no_commit: bool,
    /// `-s` / `--signoff`.
    pub signoff: bool,
    /// `-m` / `--mainline`: which parent (1-based) is mainline.
    pub mainline: Option<usize>,
    /// `--continue`.
    pub continue_pick: bool,
    /// `--abort`.
    pub abort: bool,
    /// `--skip`.
    pub skip: bool,
    /// `--quit`.
    pub quit: bool,
    /// `--ff`.
    pub ff: bool,
    /// `--allow-empty`.
    pub allow_empty: bool,
    /// `--allow-empty-message`.
    pub allow_empty_message: bool,
    /// `--keep-redundant-commits`.
    pub keep_redundant_commits: bool,
    /// `--strategy`.
    pub strategy: Option<String>,
    /// `-X` / `--strategy-option`.
    pub strategy_option: Vec<String>,
    /// `--empty`: stop, drop or keep.
    pub empty: Option<String>,
    /// `-e` / `--edit`.
    pub edit: bool,
    /// `--rerere-autoupdate`.
    pub rerere_autoupdate: bool,
    /// `--no-rerere-autoupdate`.
    pub no_rerere_autoupdate: bool,
    /// `--reference` (accepted only to print usage).
    pub reference: bool,
    /// `--cleanup`.
    pub cleanup: Option<String>,
    /// `--stdin`.
    pub stdin: bool,
}

/// The view of an optional string.
pub open spec fn opt_view(o: Option<String>) -> Option<Seq<char>> {
    match o {
        Some(s) => Some(s@),
        None => None,
    }
}

/// `o` holds the string `lit`.
pub open spec fn opt_is(o: Option<String>, lit: Seq<char>) -> bool {
    o matches Some(s) && s@ == lit
}

/// How to handle a cherry-pick whose resulting tree matches `HEAD`.
#[derive(PartialEq, Eq, Structural, Clone, Copy, Debug)]
pub enum EmptyPickResolution {
    /// Create the commit (empty or redundant).
    Proceed,
    /// Skip without error (patch already upstream).
    Drop,
    /// Stop with `CHERRY_PICK_HEAD` set.
    Stop,
}

pub open spec fn empty_pick_resolution_spec(originally_empty: bool, args: Args) -> EmptyPickResolution {
    let drop_redundant = opt_is(args.empty, "drop"@);
    let keep_redundant = args.keep_redundant_commits || opt_is(args.empty, "keep"@);
    let allow_initial_empty = args.allow_empty || args.keep_redundant_commits;
    if originally_empty {
        if allow_initial_empty {
            EmptyPickResolution::Proceed
        } else {
            EmptyPickResolution::Stop
        }
    } else if keep_redundant {
        EmptyPickResolution::Proceed
    } else if drop_redundant {
        EmptyPickResolution::Drop
    } else {
        EmptyPickResolution::Stop
    }
}

/// `o` holds exactly the characters of `lit`.
fn opt_eq_lit(o: &Option<String>, lit: &str) -> (r: bool)
    ensures
        r == (o matches Some(s) && s@ == lit@),
{
    match o {
        Some(s) => {
            let a = chars_of(s.as_str());
            let b = chars_of(lit);
            seq_eq(&a, &b)
        },
        None => false,
    }
}

/// What a `cherry-pick` invocation asks for, in the order the command decides it.
#[derive(PartialEq, Eq, Structural, Clone, Copy, Debug)]
pub enum PickOperation {
    /// `--reference`: print the usage and exit with status 129.
    ShowUsage,
    /// `-m 0`: the mainline parent number is 1-based; exit with status 129.
    BadMainline,
    Abort,
    Quit,
    Skip,
    Continue,
    /// Pick the given commits.
    Pick,
}

pub open spec fn pick_operation_spec(a: Args) -> PickOperation {
    if a.reference {
        PickOperation::ShowUsage
    } else if a.mainline == Some(0usize) {
        PickOperation::BadMainline
    } else if a.abort {
        PickOperation::Abort
    } else if a.quit {
        PickOperation::Quit
    } else if a.skip {
        PickOperation::Skip
    } else if a.continue_pick {
        PickOperation::Continue
    } else {
        PickOperation::Pick
    }
}

/// Which operation the options select.
pub fn pick_operation(args: &Args) -> (r: PickOperation)
    ensures
        r == pick_operation_spec(*args),
{
    if args.reference {
        PickOperation::ShowUsage
    } else if args.mainline == Some(0usize) {
        PickOperation::BadMainline
    } else if args.abort {
        PickOperation::Abort
    } else if args.quit {
        PickOperation::Quit
    } else if args.skip {
        PickOperation::Skip
    } else if args.continue_pick {
        PickOperation::Continue
    } else {
        PickOperation::Pick
    }
}

/// `--keep-redundant-commits` and `--empty=keep` also allow commits that start out empty.
pub fn apply_keep_empty(args: &mut Args)
    ensures
        *final(args) == (Args {
            allow_empty: old(args).allow_empty || old(args).keep_redundant_commits || opt_is(
                old(args).empty,
                "keep"@,
            ),
            ..*old(args)
        }),
{
    if args.keep_redundant_commits || opt_eq_lit(&args.empty, "keep") {
        args.allow_empty = true;
    }
}

/// The message of the commit being picked: its raw bytes (decoded lossily) when they do not end
/// with a newline, else its decoded message.
pub fn cherry_pick_source_message(raw_message: Option<&[u8]>, message: &str) -> (r: String)
    ensures
        r@ == match raw_message {
            Some(raw) => if raw@.len() == 0 || raw@.last() != 10u8 {
                crate::message::lossy_text(raw@)
            } else {
                message@
            },
            None => message@,
        },
{
    match raw_message {
        Some(raw) => {
            let n = raw.len();
            if n == 0 || raw[n - 1] != 10u8 {
                crate::message::utf8_lossy(raw)
            } else {
                string_all(&chars_of(message))
            }
        },
        None => string_all(&chars_of(message)),
    }
}

/// `b` without one final newline, if it ends with one.
pub open spec fn without_final_newline(b: Seq<u8>) -> Seq<u8> {
    if b.len() > 0 && b.last() == 10u8 {
        b.drop_last()
    } else {
        b
    }
}

/// Two blobs hold the same content up to one trailing newline each.
pub fn same_content_modulo_trailing_newline(a: &[u8], b: &[u8]) -> (r: bool)
    ensures
        r == (without_final_newline(a@) == without_final_newline(b@)),
{
    let na = a.len();
    let nb = b.len();
    let ea = if na > 0 && a[na - 1] == 10u8 { na - 1 } else { na };
    let eb = if nb > 0 && b[nb - 1] == 10u8 { nb - 1 } else { nb };
    assert(without_final_newline(a@) =~= a@.subrange(0, ea as int));
    assert(without_final_newline(b@) =~= b@.subrange(0, eb as int));
    if ea != eb {
        return false;
    }
    let mut i: usize = 0;
    while i < ea
        invariant
            ea == eb,
            ea <= a@.len(),
            eb <= b@.len(),
            without_final_newline(a@) == a@.subrange(0, ea as int),
            without_final_newline(b@) == b@.subrange(0, eb as int),
            i <= ea,
            forall|j: int| 0 <= j < i ==> a@[j] == b@[j],
        decreases ea - i,
    {
        if a[i] != b[i] {
            assert(a@.subrange(0, ea as int)[i as int] != b@.subrange(0, eb as int)[i as int]);
            return false;
        }
        i = i + 1;
    }
    assert(a@.subrange(0, ea as int) =~= b@.subrange(0, eb as int));
    true
}

/// Resolves how to handle a cherry-pick whose merged tree equals `HEAD`.
pub fn resolve_empty_pick_resolution(originally_empty: bool, args: &Args) -> (r: EmptyPickResolution)
    ensures
        r == empty_pick_resolution_spec(originally_empty, *args),
{
    let drop_redundant = opt_eq_lit(&args.empty, "drop");
    let keep_redundant = args.keep_redundant_commits || opt_eq_lit(&args.empty, "keep");
    let allow_initial_empty = args.allow_empty || args.keep_redundant_commits;
    if originally_empty {
        return if allow_initial_empty {
            EmptyPickResolution::Proceed
        } else {
            EmptyPickResolution::Stop
        };
    }
    if keep_redundant {
        return EmptyPickResolution::Proceed;
    }
    if drop_redundant {
        return EmptyPickResolution::Drop;
    }
    EmptyPickResolution::Stop
}

/// The first option (in the order `cherry-pick` checks them) that cannot be combined with a
/// sequencer operation such as `--abort` or `--quit`.
pub open spec fn incompatible_flag_spec(args: Args) -> Option<Seq<char>> {
    if args.no_commit {
        Some("--no-commit"@)
    } else if args.signoff {
        Some("--signoff"@)
    } else if args.mainline is Some {
        Some("-m"@)
    } else if args.strategy is Some {
        Some("--strategy"@)
    } else if args.strategy_option@.len() != 0 {
        Some("--strategy-option"@)
    } else if args.append_source {
        Some("-x"@)
    } else if args.ff {
        Some("--ff"@)
    } else if args.rerere_autoupdate {
        Some("--rerere-autoupdate"@)
    } else if args.no_rerere_autoupdate {
        Some("--no-rerere-autoupdate"@)
    } else if args.keep_redundant_commits {
        Some("--keep-redundant-commits"@)
    } else if args.empty is Some {
        Some("--empty"@)
    } else if args.allow_empty {
        Some("--allow-empty"@)
    } else if args.edit {
        Some("--edit"@)
    } else {
        None
    }
}

/// The pick option that an operation (`--abort`, `--quit`) refuses, if any was given.
pub fn incompatible_pick_flag(args: &Args) -> (r: Option<&'static str>)
    ensures
        match r {
            Some(f) => incompatible_flag_spec(*args) == Some(f@),
            None => incompatible_flag_spec(*args) is None,
        },
{
    if args.no_commit {
        Some("--no-commit")
    } else if args.signoff {
        Some("--signoff")
    } else if args.mainline.is_some() {
        Some("-m")
    } else if args.strategy.is_some() {
        Some("--strategy")
    } else if args.strategy_option.len() != 0 {
        Some("--strategy-option")
    } else if args.append_source {
        Some("-x")
    } else if args.ff {
        Some("--ff")
    } else if args.rerere_autoupdate {
        Some("--rerere-autoupdate")
    } else if args.no_rerere_autoupdate {
        Some("--no-rerere-autoupdate")
    } else if args.keep_redundant_commits {
        Some("--keep-redundant-commits")
    } else if args.empty.is_some() {
        Some("--empty")
    } else if args.allow_empty {
        Some("--allow-empty")
    } else if args.edit {
        Some("--edit")
    } else {
        None
    }
}

/// Revision-walking options that `cherry-pick` accepts in `git log` style.
pub struct RevWalkOptions {
    /// `-<n>`: the number of commits to take.
    pub max_count: Option<usize>,
    /// `--author=<pattern>` / `--author <pattern>`.
    pub author: Option<String>,
}

/// `-<digits>` whose value fits a `usize`.
pub open spec fn is_count_flag(a: Seq<char>) -> bool {
    &&& a.len() >= 2
    &&& a[0] == '-'
    &&& all_digits(a.drop_first())
    &&& dec_val(a.drop_first()) <= usize::MAX
}

/// The scan of `rest` from position `i`, given what was kept so far and the options seen.
pub open spec fn argv_scan(
    rest: Seq<Seq<char>>,
    i: int,
    out: Seq<Seq<char>>,
    max: Option<usize>,
    author: Option<Seq<char>>,
) -> (Seq<Seq<char>>, Option<usize>, Option<Seq<char>>)
    decreases rest.len() - i,
{
    if i < 0 || i >= rest.len() {
        (out, max, author)
    } else {
        let a = rest[i];
        if a == "--"@ {
            (out + rest.subrange(i, rest.len() as int), max, author)
        } else if starts_with(a, "--author="@) {
            argv_scan(rest, i + 1, out, max, Some(a.subrange(9, a.len() as int)))
        } else if a == "--author"@ && i + 1 < rest.len() {
            argv_scan(rest, i + 2, out, max, Some(rest[i + 1]))
        } else if is_count_flag(a) {
            argv_scan(rest, i + 1, out, Some(dec_val(a.drop_first()) as usize), author)
        } else {
            argv_scan(rest, i + 1, out.push(a), max, author)
        }
    }
}

/// What the scan of a whole argument list yields.
pub open spec fn argv_result(rest: Seq<Seq<char>>) -> (Seq<Seq<char>>, Option<usize>, Option<Seq<char>>) {
    argv_scan(rest, 0, Seq::empty(), None, None)
}

/// Splits `rest` into the arguments left for option parsing and the revision-walking options
/// `-<n>` and `--author` that it held. Scanning stops at `--`, which is kept with all that
/// follows it. The last `-<n>` and the last `--author` win.
pub fn scan_cherry_pick_argv(rest: &[String]) -> (r: (Vec<String>, RevWalkOptions))
    ensures
        views(r.0@) == argv_result(views(rest@)).0,
        r.1.max_count == argv_result(views(rest@)).1,
        (match r.1.author {
            Some(a) => argv_result(views(rest@)).2 == Some(a@),
            None => argv_result(views(rest@)).2 is None,
        }),
{
    let ghost rv = views(rest@);
    let dd = chars_of("--");
    let au_eq = chars_of("--author=");
    let au = chars_of("--author");
    proof {
        reveal_strlit("--");
        reveal_strlit("--author=");
        reveal_strlit("--author");
    }
    let mut max_count: Option<usize> = None;
    let mut author: Option<String> = None;
    let mut out: Vec<String> = Vec::new();
    let mut i: usize = 0;
    assert(views(out@) =~= Seq::<Seq<char>>::empty());
    while i < rest.len()
        invariant
            rv == views(rest@),
            dd@ == "--"@,
            au_eq@ == "--author="@,
            au@ == "--author"@,
            i <= rest@.len(),
            argv_scan(rv, i as int, views(out@), max_count, match author {
                Some(a) => Some(a@),
                None => None,
            }) == argv_result(rv),
        decreases rest@.len() - i,
    {
        let a = chars_of(rest[i].as_str());
        proof {
            reveal_strlit("--");
            reveal_strlit("--author=");
            reveal_strlit("--author");
        }
        assert(a@ == rv[i as int]);
        if seq_eq(&a, &dd) {
            let ghost out0 = views(out@);
            let mut j = i;
            while j < rest.len()
                invariant
                    i <= j <= rest@.len(),
                    rv == views(rest@),
                    views(out@) == out0 + rv.subrange(i as int, j as int),
                decreases rest@.len() - j,
            {
                let ghost prev = out@;
                let x = rest[j].clone();
                out.push(x);
                proof {
                    lemma_views_push(prev, x);
                    assert(rv.subrange(i as int, j + 1) =~= rv.subrange(i as int, j as int).push(rv[j as int]));
                }
                j = j + 1;
            }
            assert(views(out@) == argv_result(rv).0);
            return (out, RevWalkOptions { max_count, author });
        }
        if has_prefix(&a, &au_eq) {
            author = Some(string_of(&a, 9, a.len()));
            i = i + 1;
            continue;
        }
        if seq_eq(&a, &au) && i + 1 < rest.len() {
            author = Some(rest[i + 1].clone());
            assert(rv[i + 1] == rest@[i + 1]@);
            i = i + 2;
            continue;
        }
        if a.len() >= 2 && a[0] == '-' {
            let mut all = true;
            let mut k: usize = 1;
            while k < a.len()
                invariant
                    1 <= k <= a@.len(),
                    all == all_digits(a@.subrange(1, k as int)),
                decreases a@.len() - k,
            {
                assert(a@.subrange(1, k + 1) =~= a@.subrange(1, k as int).push(a@[k as int]));
                proof {
                    crate::text::lemma_all_digits_push(a@.subrange(1, k as int), a@[k as int]);
                }
                if !char_is_digit(a[k]) {
                    all = false;
                }
                k = k + 1;
            }
            assert(a@.subrange(1, a@.len() as int) =~= a@.drop_first());
            if all {
                match parse_decimal(&a, 1, a.len()) {
                    Some(n) => {
                        max_count = Some(n);
                        i = i + 1;
                        continue;
                    },
                    None => {},
                }
            }
        }
        let ghost prev = out@;
        let x = rest[i].clone();
        out.push(x);
        proof {
            lemma_views_push(prev, x);
        }
        i = i + 1;
    }
    (out, RevWalkOptions { max_count, author })
}

/// Strip Git revision-walking options from argv before option parsing.
///
/// Handles `-<n>` (max count) and `--author=<pat>` / `--author <pat>` like `git cherry-pick`;
/// [`scan_cherry_pick_argv`] also returns the options themselves.
pub fn preprocess_cherry_pick_argv(rest: &[String]) -> (out: Vec<String>)
    ensures
        views(out@) == argv_result(views(rest@)).0,
{
    let (out, _opts) = scan_cherry_pick_argv(rest);
    out
}

proof fn lemma_argv_scan_split(
    rest: Seq<Seq<char>>,
    k: int,
    i: int,
    out: Seq<Seq<char>>,
    max: Option<usize>,
    author: Option<Seq<char>>,
)
    requires
        0 <= i <= k < rest.len(),
        rest[k] == "--"@,
        forall|j: int| 0 <= j < k ==> rest[j] != "--"@,
        k == 0 || rest[k - 1] != "--author"@,
    ensures
        argv_scan(rest, i, out, max, author) == ({
            let r = argv_scan(rest.take(k), i, out, max, author);
            (r.0 + rest.subrange(k, rest.len() as int), r.1, r.2)
        }),
    decreases k - i,
{
    let head = rest.take(k);
    if i < k {
        assert(head[i] == rest[i]);
        let a = rest[i];
        if a == "--"@ {
        } else if starts_with(a, "--author="@) {
            lemma_argv_scan_split(rest, k, i + 1, out, max, Some(a.subrange(9, a.len() as int)));
        } else if a == "--author"@ && i + 1 < rest.len() {
            assert(i + 1 < k);
            assert(head[i + 1] == rest[i + 1]);
            lemma_argv_scan_split(rest, k, i + 2, out, max, Some(rest[i + 1]));
        } else if is_count_flag(a) {
            lemma_argv_scan_split(rest, k, i + 1, out, Some(dec_val(a.drop_first()) as usize), author);
        } else {
            lemma_argv_scan_split(rest, k, i + 1, out.push(a), max, author);
        }
    }
}

/// Everything from the first `--` on is passed through as it stands, and the options come from
/// the arguments before it alone (unless the `--` is the value of a `--author` just before it).
pub proof fn law_argv_after_double_dash(rest: Seq<Seq<char>>, k: int)
    requires
        0 <= k < rest.len(),
        rest[k] == "--"@,
        forall|j: int| 0 <= j < k ==> rest[j] != "--"@,
        k == 0 || rest[k - 1] != "--author"@,
    ensures
        argv_result(rest).0 == argv_result(rest.take(k)).0 + rest.subrange(k, rest.len() as int),
        argv_result(rest).1 == argv_result(rest.take(k)).1,
        argv_result(rest).2 == argv_result(rest.take(k)).2,
{
    lemma_argv_scan_split(rest, k, 0, Seq::empty(), None, None);
}

// ----- the base of a pick --------------------------------------------------------------

/// The parent that the picked commit is compared with: its index among the commit's parents
/// (`Ok(None)` for a root commit, compared with the empty tree), or the error for `-m` /
/// `--mainline` naming no parent, or for a merge picked without `-m`.
pub open spec fn pick_base_spec(commit: Seq<char>, mainline: Option<usize>, parent_count: nat) -> Result<
    Option<nat>,
    Seq<char>,
> {
    match mainline {
        Some(m) => if m == 0 || m > parent_count {
            Err("commit "@ + commit + " does not have parent "@ + nat_text(m as nat))
        } else {
            Ok(Some((m - 1) as nat))
        },
        None => if parent_count > 1 {
            Err("commit "@ + commit + " is a merge but no -m option was given"@)
        } else if parent_count == 0 {
            Ok(None)
        } else {
            Ok(Some(0))
        },
    }
}

/// Chooses which parent of `commit` a pick is made against (`-m <n>` picks parent `n`,
/// counting from one), as `cherry-pick` does before merging.
pub fn pick_base_parent(commit: &str, mainline: Option<usize>, parent_count: usize) -> (r: Result<
    Option<usize>,
    String,
>)
    ensures
        (match (r, pick_base_spec(commit@, mainline, parent_count as nat)) {
            (Ok(Some(i)), Ok(Some(j))) => i == j,
            (Ok(None), Ok(None)) => true,
            (Err(e), Err(t)) => e@ == t,
            _ => false,
        }),
{
    let mut out: Vec<char> = Vec::new();
    let c = chars_of(commit);
    let head = chars_of("commit ");
    proof {
        reveal_strlit("commit ");
    }
    match mainline {
        Some(m) => {
            if m == 0 || m > parent_count {
                push_all(&mut out, &head);
                push_all(&mut out, &c);
                let mid = chars_of(" does not have parent ");
                push_all(&mut out, &mid);
                push_u64_text(&mut out, m as u64);
                assert(out@ =~= "commit "@ + commit@ + " does not have parent "@ + nat_text(m as nat));
                Err(string_all(&out))
            } else {
                Ok(Some(m - 1))
            }
        },
        None => {
            if parent_count > 1 {
                push_all(&mut out, &head);
                push_all(&mut out, &c);
                let tail = chars_of(" is a merge but no -m option was given");
                push_all(&mut out, &tail);
                assert(out@ =~= "commit "@ + commit@ + " is a merge but no -m option was given"@);
                Err(string_all(&out))
            } else if parent_count == 0 {
                Ok(None)
            } else {
                Ok(Some(0))
            }
        },
    }
}

/// `--ff` can move the branch to the picked commit itself: always on an unborn branch
/// (`head` is `None`), otherwise when the parent the pick is made against is `HEAD`.
pub fn can_fast_forward(head: Option<&str>, parent: Option<&str>) -> (r: bool)
    ensures
        r == match (head, parent) {
            (None, _) => true,
            (Some(h), Some(p)) => h@ == p@,
            _ => false,
        },
{
    match (head, parent) {
        (None, _) => true,
        (Some(h), Some(p)) => {
            let hv = chars_of(h);
            let pv = chars_of(p);
            seq_eq(&hv, &pv)
        },
        _ => false,
    }
}

/// The lines of `ls`, trimmed, without those left empty.
pub open spec fn nonblank_trimmed(ls: Seq<Seq<char>>) -> Seq<Seq<char>>
    decreases ls.len(),
{
    if ls.len() == 0 {
        Seq::empty()
    } else {
        let rest = nonblank_trimmed(ls.drop_last());
        let t = trim(ls.last());
        if t.len() > 0 {
            rest.push(t)
        } else {
            rest
        }
    }
}

/// The commits named on standard input for `--stdin`: one per line, trimmed, blank lines
/// skipped.
pub fn stdin_commit_list(input: &str) -> (r: Vec<String>)
    ensures
        views(r@) == nonblank_trimmed(lines(input@)),
{
    let v = chars_of(input);
    let ls = split_lines(&v);
    let ghost lv = lines(v@);
    let mut out: Vec<String> = Vec::new();
    let mut k: usize = 0;
    assert(views(out@) =~= nonblank_trimmed(lv.take(0)));
    while k < ls.len()
        invariant
            lv == lines(v@),
            v@ == input@,
            ls@.len() == lv.len(),
            forall|j: int|
                #![trigger ls@[j]]
                0 <= j < ls@.len() ==> ls@[j].0 <= ls@[j].1 <= v@.len() && v@.subrange(
                    ls@[j].0 as int,
                    ls@[j].1 as int,
                ) == lv[j],
            k <= ls@.len(),
            views(out@) == nonblank_trimmed(lv.take(k as int)),
        decreases ls@.len() - k,
    {
        let (a, b) = ls[k];
        let (x, y) = trim_bounds(&v, a, b);
        assert(lv.take(k + 1).drop_last() =~= lv.take(k as int));
        assert(lv.take(k + 1).last() == lv[k as int]);
        if x < y {
            let t = string_of(&v, x, y);
            let ghost prev = out@;
            out.push(t);
            proof {
                lemma_views_push(prev, t);
            }
        }
        k = k + 1;
    }
    assert(lv.take(lv.len() as int) =~= lv);
    out
}

// ----- reflog messages -----------------------------------------------------------------

/// `checkout: moving from <from> to <to>`: the two names (split at the last ` to `).
pub open spec fn checkout_move(m: Seq<char>) -> Option<(Seq<char>, Seq<char>)> {
    let p = "checkout: moving from "@;
    if !starts_with(m, p) {
        None
    } else {
        let rest = m.subrange(p.len() as int, m.len() as int);
        match rfind(rest, " to "@) {
            None => None,
            Some(i) => Some((rest.take(i), rest.subrange(i + 4, rest.len() as int))),
        }
    }
}

/// Parses a `HEAD` reflog message of a checkout into the names moved from and to.
pub fn parse_checkout_moving_message(message: &str) -> (r: Option<(String, String)>)
    ensures
        match r {
            Some((f, t)) => checkout_move(message@) == Some((f@, t@)),
            None => checkout_move(message@) is None,
        },
{
    let m = chars_of(message);
    let p = chars_of("checkout: moving from ");
    if !has_prefix(&m, &p) {
        return None;
    }
    let mut rest: Vec<char> = Vec::new();
    let n = m.len();
    push_range(&mut rest, &m, p.len(), n);
    assert(rest@ =~= m@.subrange(p@.len() as int, m@.len() as int));
    let to = chars_of(" to ");
    proof {
        reveal_strlit(" to ");
    }
    match rfind_all(&rest, &to) {
        None => None,
        Some(i) => {
            proof {
                lemma_rfind_upto_props(rest@, to@, rest@.len() - to@.len());
                assert(occurs_at(rest@, to@, i as int));
            }
            let rn = rest.len();
            assert(rest@.take(i as int) =~= rest@.subrange(0, i as int));
            Some((string_of(&rest, 0, i), string_of(&rest, i + 4, rn)))
        },
    }
}

/// The names moved away from by the checkouts among the messages, oldest first.
pub open spec fn checkout_sources(ms: Seq<Seq<char>>) -> Seq<Seq<char>>
    decreases ms.len(),
{
    if ms.len() == 0 {
        Seq::empty()
    } else {
        let rest = checkout_sources(ms.drop_last());
        match checkout_move(ms.last()) {
            Some((f, _)) => rest.push(f),
            None => rest,
        }
    }
}

/// The branch or commit checked out from `n` checkouts ago (`cherry-pick -` uses 1), given the
/// messages of the `HEAD` reflog, oldest first; `None` when there were fewer checkouts.
pub fn previous_checkout_from_messages(messages: &[String], n: usize) -> (r: Option<String>)
    ensures
        ({
            let s = checkout_sources(views(messages@));
            match r {
                Some(f) => 1 <= n <= s.len() && f@ == s[s.len() - n],
                None => !(1 <= n <= s.len()),
            }
        }),
{
    let ghost mv = views(messages@);
    let mut froms: Vec<String> = Vec::new();
    let mut i: usize = 0;
    assert(views(froms@) =~= checkout_sources(mv.take(0)));
    while i < messages.len()
        invariant
            mv == views(messages@),
            i <= messages@.len(),
            views(froms@) == checkout_sources(mv.take(i as int)),
        decreases messages@.len() - i,
    {
        assert(mv.take(i + 1).drop_last() =~= mv.take(i as int));
        assert(mv.take(i + 1).last() == messages@[i as int]@);
        match parse_checkout_moving_message(messages[i].as_str()) {
            Some((f, _t)) => {
                let ghost before = froms@;
                froms.push(f);
                proof {
                    lemma_views_push(before, f);
                }
            },
            None => {},
        }
        i = i + 1;
    }
    assert(mv.take(messages@.len() as int) =~= mv);
    if n == 0 || n > froms.len() {
        return None;
    }
    let k = froms.len() - n;
    Some(froms[k].clone())
}

// ----- sign-off lines ------------------------------------------------------------------

/// Index of the last line whose trimmed end equals `target`.
pub open spec fn last_line_equal(ls: Seq<Seq<char>>, target: Seq<char>) -> Option<int>
    decreases ls.len(),
{
    if ls.len() == 0 {
        None
    } else if trim_end(ls.last()) == target {
        Some(ls.len() - 1)
    } else {
        last_line_equal(ls.drop_last(), target)
    }
}

pub proof fn lemma_last_line_equal_bound(ls: Seq<Seq<char>>, target: Seq<char>)
    ensures
        match last_line_equal(ls, target) {
            Some(k) => 0 <= k < ls.len(),
            None => true,
        },
    decreases ls.len(),
{
    if ls.len() > 0 && trim_end(ls.last()) != target {
        lemma_last_line_equal_bound(ls.drop_last(), target);
    }
}

/// `ls` without its trailing lines that are blank once trimmed.
pub open spec fn drop_blank_tail(ls: Seq<Seq<char>>) -> Seq<Seq<char>>
    decreases ls.len(),
{
    if ls.len() > 0 && trim(ls.last()).len() == 0 {
        drop_blank_tail(ls.drop_last())
    } else {
        ls
    }
}

/// The message with its last line equal to the sign-off `sob` (both compared without
/// trailing whitespace) removed, and the blank lines that removal leaves at the end; the
/// lines are then joined with newlines and end with one. Unchanged when no line matches.
pub open spec fn without_signoff(msg: Seq<char>, sob: Seq<char>) -> Seq<char> {
    let ls = lines(msg);
    match last_line_equal(ls, trim_end(sob)) {
        None => msg,
        Some(k) => {
            let kept = drop_blank_tail(ls.remove(k));
            if kept.len() == 0 {
                Seq::empty()
            } else {
                join(kept, "\n"@) + "\n"@
            }
        },
    }
}

/// The texts of the ranges `r` of `m`.
pub open spec fn range_texts(m: Seq<char>, r: Seq<(usize, usize)>) -> Seq<Seq<char>> {
    r.map_values(|p: (usize, usize)| m.subrange(p.0 as int, p.1 as int))
}

/// The index of the last line (given by its range) whose trimmed end equals `target`.
fn last_equal_line(m: &Vec<char>, ls: &Vec<(usize, usize)>, target: &Vec<char>) -> (r: Option<usize>)
    requires
        forall|j: int| #![trigger ls@[j]] 0 <= j < ls@.len() ==> ls@[j].0 <= ls@[j].1 <= m@.len(),
    ensures
        match r {
            Some(k) => last_line_equal(range_texts(m@, ls@), target@) == Some(k as int),
            None => last_line_equal(range_texts(m@, ls@), target@) is None,
        },
{
    let ghost t = range_texts(m@, ls@);
    let mut k = ls.len();
    assert(t.take(t.len() as int) =~= t);
    while k > 0
        invariant
            t == range_texts(m@, ls@),
            forall|j: int| #![trigger ls@[j]] 0 <= j < ls@.len() ==> ls@[j].0 <= ls@[j].1 <= m@.len(),
            k <= ls@.len(),
            last_line_equal(t.take(k as int), target@) == last_line_equal(t, target@),
        decreases k,
    {
        let (lo, hi) = ls[k - 1];
        assert(t[k - 1] == m@.subrange(lo as int, hi as int));
        let n = ws_kept(m, lo, hi);
        let mut line: Vec<char> = Vec::new();
        push_range(&mut line, m, lo, lo + n);
        assert(line@ =~= trim_end(t[k - 1]));
        assert(t.take(k as int).last() == t[k - 1]);
        if seq_eq(&line, target) {
            return Some(k - 1);
        }
        assert(t.take(k as int).drop_last() =~= t.take(k - 1));
        k = k - 1;
    }
    None
}

/// The last of the (non-empty list of) line ranges is blank once trimmed.
fn last_line_blank(m: &Vec<char>, kept: &Vec<(usize, usize)>) -> (r: bool)
    requires
        kept@.len() > 0,
        forall|j: int| #![trigger kept@[j]] 0 <= j < kept@.len() ==> kept@[j].0 <= kept@[j].1 <= m@.len(),
    ensures
        r == (trim(range_texts(m@, kept@).last()).len() == 0),
{
    let (lo, hi) = kept[kept.len() - 1];
    let (a, b) = trim_bounds(m, lo, hi);
    a == b
}

/// Removes a single trailing sign-off line (`sob`, a full `Signed-off-by: ...` line) and the
/// blank lines its removal leaves behind.
pub fn strip_trailing_signoff_line(msg: &mut String, sob: &str)
    ensures
        final(msg)@ == without_signoff(old(msg)@, sob@),
{
    let m = chars_of(msg.as_str());
    let sv = chars_of(sob);
    let kn = ws_kept(&sv, 0, sv.len());
    let mut target: Vec<char> = Vec::new();
    push_range(&mut target, &sv, 0, kn);
    assert(sv@.subrange(0, sv@.len() as int) =~= sv@);
    assert(target@ =~= trim_end(sob@));
    let ls = split_lines(&m);
    let ghost lsv = lines(m@);
    assert(range_texts(m@, ls@) =~= lsv);
    let pos = match last_equal_line(&m, &ls, &target) {
        None => {
            return;
        },
        Some(p) => p,
    };
    proof {
        lemma_last_line_equal_bound(lsv, target@);
    }
    let ghost removed = lsv.remove(pos as int);
    let mut kept: Vec<(usize, usize)> = Vec::new();
    let mut i: usize = 0;
    while i < ls.len()
        invariant
            lsv == range_texts(m@, ls@),
            forall|j: int| #![trigger ls@[j]] 0 <= j < ls@.len() ==> ls@[j].0 <= ls@[j].1 <= m@.len(),
            forall|j: int| #![trigger kept@[j]] 0 <= j < kept@.len() ==> kept@[j].0 <= kept@[j].1 <= m@.len(),
            pos < ls@.len(),
            i <= ls@.len(),
            range_texts(m@, kept@) == if i <= pos {
                lsv.take(i as int)
            } else {
                lsv.take(pos as int) + lsv.subrange(pos + 1, i as int)
            },
        decreases ls@.len() - i,
    {
        if i != pos {
            let ghost before = kept@;
            kept.push(ls[i]);
            proof {
                assert(range_texts(m@, kept@) =~= range_texts(m@, before).push(lsv[i as int]));
                if i < pos {
                    assert(lsv.take(i + 1) =~= lsv.take(i as int).push(lsv[i as int]));
                } else {
                    assert(lsv.subrange(pos + 1, i + 1) =~= lsv.subrange(pos + 1, i as int).push(lsv[i as int]));
                }
            }
        } else {
            assert(lsv.subrange(pos + 1, pos + 1) =~= Seq::<Seq<char>>::empty());
            assert(lsv.take(pos as int) + lsv.subrange(pos + 1, pos + 1) =~= lsv.take(pos as int));
        }
        i = i + 1;
    }
    assert(range_texts(m@, kept@) =~= removed);
    while kept.len() > 0 && last_line_blank(&m, &kept)
        invariant
            forall|j: int| #![trigger kept@[j]] 0 <= j < kept@.len() ==> kept@[j].0 <= kept@[j].1 <= m@.len(),
            drop_blank_tail(range_texts(m@, kept@)) == drop_blank_tail(removed),
        decreases kept@.len(),
    {
        let ghost before = kept@;
        kept.pop();
        assert(range_texts(m@, kept@) =~= range_texts(m@, before).drop_last());
    }
    let ghost final_lines = range_texts(m@, kept@);
    assert(drop_blank_tail(final_lines) == final_lines);
    if kept.len() == 0 {
        *msg = String::new();
        return;
    }
    let mut out: Vec<char> = Vec::new();
    let (lo0, hi0) = kept[0];
    push_range(&mut out, &m, lo0, hi0);
    assert(final_lines.take(1) =~= seq![final_lines[0]]);
    let mut j: usize = 1;
    while j < kept.len()
        invariant
            1 <= j <= kept@.len(),
            forall|q: int| #![trigger kept@[q]] 0 <= q < kept@.len() ==> kept@[q].0 <= kept@[q].1 <= m@.len(),
            final_lines == range_texts(m@, kept@),
            out@ == join(final_lines.take(j as int), "\n"@),
        decreases kept@.len() - j,
    {
        out.push('\n');
        let (lo, hi) = kept[j];
        push_range(&mut out, &m, lo, hi);
        proof {
            reveal_strlit("\n");
            assert(final_lines.take(j + 1).drop_last() =~= final_lines.take(j as int));
            assert(final_lines.take(j + 1).last() == final_lines[j as int]);
        }
        j = j + 1;
        assert(out@ =~= join(final_lines.take(j as int), "\n"@));
    }
    assert(final_lines.take(final_lines.len() as int) =~= final_lines);
    out.push('\n');
    proof {
        reveal_strlit("\n");
    }
    assert(out@ =~= join(final_lines, "\n"@) + "\n"@);
    *msg = string_all(&out);
}

// ----- merge strategy options ----------------------------------------------------------

/// Which side wins in a content conflict (`-X ours` / `-X theirs`).
#[derive(PartialEq, Eq, Structural, Clone, Copy, Debug)]
pub enum MergeFavor {
    /// Leave conflicts in place.
    Normal,
    /// Take our side.
    Ours,
    /// Take their side.
    Theirs,
}

/// Whitespace handling asked for with `-X`.
#[derive(PartialEq, Eq, Structural, Clone, Copy, Debug)]
pub struct WhitespaceStrategyOptions {
    pub ignore_all_space: bool,
    pub ignore_space_change: bool,
    pub ignore_space_at_eol: bool,
    pub ignore_cr_at_eol: bool,
}

/// The effect of the `-X` options from index `i` on (unknown ones are ignored; the last of
/// `ours` / `theirs` wins).
pub open spec fn strategy_scan(
    opts: Seq<Seq<char>>,
    i: int,
    favor: MergeFavor,
    ws: WhitespaceStrategyOptions,
) -> (MergeFavor, WhitespaceStrategyOptions)
    decreases opts.len() - i,
{
    if i < 0 || i >= opts.len() {
        (favor, ws)
    } else {
        let o = opts[i];
        if o == "theirs"@ {
            strategy_scan(opts, i + 1, MergeFavor::Theirs, ws)
        } else if o == "ours"@ {
            strategy_scan(opts, i + 1, MergeFavor::Ours, ws)
        } else if o == "ignore-all-space"@ {
            strategy_scan(opts, i + 1, favor, WhitespaceStrategyOptions { ignore_all_space: true, ..ws })
        } else if o == "ignore-space-change"@ {
            strategy_scan(opts, i + 1, favor, WhitespaceStrategyOptions { ignore_space_change: true, ..ws })
        } else if o == "ignore-space-at-eol"@ {
            strategy_scan(opts, i + 1, favor, WhitespaceStrategyOptions { ignore_space_at_eol: true, ..ws })
        } else if o == "ignore-cr-at-eol"@ {
            strategy_scan(opts, i + 1, favor, WhitespaceStrategyOptions { ignore_cr_at_eol: true, ..ws })
        } else {
            strategy_scan(opts, i + 1, favor, ws)
        }
    }
}

pub open spec fn no_whitespace_options() -> WhitespaceStrategyOptions {
    WhitespaceStrategyOptions {
        ignore_all_space: false,
        ignore_space_change: false,
        ignore_space_at_eol: false,
        ignore_cr_at_eol: false,
    }
}

/// Reads the `-X` strategy options: the favored side and the whitespace handling.
pub fn parse_strategy_options(strategy_options: &[String]) -> (r: (MergeFavor, WhitespaceStrategyOptions))
    ensures
        r == strategy_scan(views(strategy_options@), 0, MergeFavor::Normal, no_whitespace_options()),
{
    let ghost ov = views(strategy_options@);
    let mut favor = MergeFavor::Normal;
    let mut ws = WhitespaceStrategyOptions {
        ignore_all_space: false,
        ignore_space_change: false,
        ignore_space_at_eol: false,
        ignore_cr_at_eol: false,
    };
    let mut i: usize = 0;
    while i < strategy_options.len()
        invariant
            ov == views(strategy_options@),
            i <= ov.len(),
            strategy_scan(ov, i as int, favor, ws) == strategy_scan(ov, 0, MergeFavor::Normal, no_whitespace_options()),
        decreases ov.len() - i,
    {
        let o = chars_of(strategy_options[i].as_str());
        assert(o@ == ov[i as int]);
        if eq_lit(&o, "theirs") {
            favor = MergeFavor::Theirs;
        } else if eq_lit(&o, "ours") {
            favor = MergeFavor::Ours;
        } else if eq_lit(&o, "ignore-all-space") {
            ws.ignore_all_space = true;
        } else if eq_lit(&o, "ignore-space-change") {
            ws.ignore_space_change = true;
        } else if eq_lit(&o, "ignore-space-at-eol") {
            ws.ignore_space_at_eol = true;
        } else if eq_lit(&o, "ignore-cr-at-eol") {
            ws.ignore_cr_at_eol = true;
        }
        i = i + 1;
    }
    (favor, ws)
}

// ----- sequencer state -----------------------------------------------------------------

/// The commit named by a `pick <hex>` line of the sequencer's todo list: the hex token (4 to
/// 40 hex digits) after `pick` and whitespace.
pub open spec fn todo_pick_token(line: Seq<char>) -> Option<Seq<char>> {
    let t = trim(line);
    if t.len() == 0 || t[0] == '#' || !starts_with(t, "pick"@) {
        None
    } else {
        let after = t.subrange(4, t.len() as int);
        if after.len() == 0 || !is_ws(after[0]) {
            None
        } else {
            let ap = trim_start(after);
            let tok = ap.take(lead_len(ap, not_ws()) as int);
            if 4 <= byte_len(tok) <= 40 && all_hex(tok) {
                Some(tok)
            } else {
                None
            }
        }
    }
}

/// Every character of `s` satisfies `f`, so all of `s` is its leading run.
proof fn lemma_lead_len_all(s: Seq<char>, f: spec_fn(char) -> bool)
    requires
        forall|i: int| 0 <= i < s.len() ==> f(#[trigger] s[i]),
    ensures
        lead_len(s, f) == s.len(),
    decreases s.len(),
{
    if s.len() > 0 {
        assert forall|i: int| 0 <= i < s.drop_first().len() implies f(#[trigger] s.drop_first()[i]) by {
            assert(s.drop_first()[i] == s[i + 1]);
        }
        lemma_lead_len_all(s.drop_first(), f);
    }
}

/// An ASCII hex digit, by its character ranges.
pub open spec fn ascii_hex_char(c: char) -> bool {
    ('0' <= c && c <= '9') || ('a' <= c && c <= 'f') || ('A' <= c && c <= 'F')
}

/// A todo line `pick <h>`, for a run `h` of ASCII hex digits, names the commit `h` exactly
/// when `h` has 4 to 40 digits; in particular a full 40-digit object name, as the sequencer
/// writes its todo list, is read back.
pub proof fn law_todo_pick_names(h: Seq<char>)
    requires
        1 <= h.len(),
        forall|i: int| 0 <= i < h.len() ==> ascii_hex_char(#[trigger] h[i]),
    ensures
        todo_pick_token("pick "@ + h) == (if 4 <= h.len() <= 40 { Some(h) } else { None }),
        todo_pick_token("pick "@ + h + seq!['\n']) == (if 4 <= h.len() <= 40 { Some(h) } else { None }),
{
    reveal_strlit("pick ");
    reveal_strlit("pick");
    let s1 = "pick "@ + h;
    let s2 = "pick "@ + h + seq!['\n'];
    assert(forall|i: int| 0 <= i < h.len() ==> !is_ws(#[trigger] h[i])) by {
        assert forall|i: int| 0 <= i < h.len() implies !is_ws(#[trigger] h[i]) by {
            assert(ascii_hex_char(h[i]));
        }
    }
    assert(all_hex(h)) by {
        assert forall|i: int| 0 <= i < h.len() implies #[trigger] crate::text::is_hex_digit(h[i]) by {
            assert(ascii_hex_char(h[i]));
        }
    }
    assert(vstd::utf8::is_ascii_chars(h)) by {
        assert forall|i: int| 0 <= i < h.len() implies '\0' <= #[trigger] h[i] <= '\u{7f}' by {
            assert(ascii_hex_char(h[i]));
        }
    }
    vstd::utf8::is_ascii_chars_encode_utf8(h);
    assert(byte_len(h) == h.len());
    lemma_lead_len_all(h, not_ws());
    assert(h.take(h.len() as int) =~= h);
    assert(h[h.len() - 1] == h.last());
    assert(!is_ws(h.last()));
    // the line is already trimmed
    assert(lead_len(s1, crate::text::ws()) == 0);
    assert(s1.last() == h.last());
    assert(crate::text::kept_len(s1, crate::text::ws()) == s1.len());
    assert(trim_start(s1) =~= s1);
    assert(trim(s1) =~= s1);
    // the trailing line break is trimmed away
    assert(lead_len(s2, crate::text::ws()) == 0);
    assert(trim_start(s2) =~= s2);
    assert(s2.drop_last() =~= s1);
    assert(crate::text::kept_len(s2, crate::text::ws()) == s1.len());
    assert(trim(s2) =~= s1);
    // after `pick`, one space, then the name
    let after = s1.subrange(4, s1.len() as int);
    assert(s1.subrange(0, 4) =~= "pick"@);
    assert(after[0] == ' ');
    assert(after.drop_first() =~= h);
    assert(lead_len(h, crate::text::ws()) == 0);
    assert(lead_len(after, crate::text::ws()) == 1);
    assert(trim_start(after) =~= h);
}

/// Every name that a todo line gives is a run of 4 to 40 ASCII hex digits, on a line that
/// (once trimmed) starts with the word `pick`.
pub proof fn law_todo_pick_token_is_name(line: Seq<char>)
    ensures
        todo_pick_token(line) matches Some(t) ==> 4 <= t.len() <= 40 && (forall|i: int|
            0 <= i < t.len() ==> ascii_hex_char(#[trigger] t[i])) && trim(line).len() > 4 && trim(line).take(4)
            == "pick"@ && is_ws(trim(line)[4]),
{
    if let Some(t) = todo_pick_token(line) {
        reveal_strlit("pick");
        let tl = trim(line);
        assert(tl.subrange(0, 4) == "pick"@);
        assert(tl.take(4) =~= tl.subrange(0, 4));
        assert(tl.subrange(4, tl.len() as int)[0] == tl[4]);
        assert forall|i: int| 0 <= i < t.len() implies ascii_hex_char(#[trigger] t[i]) by {
            assert(crate::text::is_hex_digit(t[i]));
        }
        assert(vstd::utf8::is_ascii_chars(t)) by {
            assert forall|i: int| 0 <= i < t.len() implies '\0' <= #[trigger] t[i] <= '\u{7f}' by {
                assert(crate::text::is_hex_digit(t[i]));
            }
        }
        vstd::utf8::is_ascii_chars_encode_utf8(t);
    }
}

/// The hex object name of a `pick` line of the sequencer's todo list, if the line is one.
pub fn parse_todo_pick_line(line: &str) -> (r: Option<String>)
    ensures
        opt_view(r) == todo_pick_token(line@),
{
    let v = chars_of(line);
    let (a, b) = trim_bounds(&v, 0, v.len());
    assert(v@.subrange(0, v@.len() as int) =~= v@);
    let mut t: Vec<char> = Vec::new();
    push_range(&mut t, &v, a, b);
    assert(t@ =~= trim(line@));
    let pick = chars_of("pick");
    proof {
        reveal_strlit("pick");
    }
    if t.len() == 0 || t[0] == '#' || !has_prefix(&t, &pick) {
        return None;
    }
    let tn = t.len();
    if tn == 4 {
        return None;
    }
    if !char_is_ws(t[4]) {
        assert(t@.subrange(4, tn as int)[0] == t@[4]);
        return None;
    }
    assert(t@.subrange(4, tn as int)[0] == t@[4]);
    let l = ws_lead(&t, 4, tn);
    proof {
        crate::text::lemma_lead_len_le(t@.subrange(4, tn as int), crate::text::ws());
    }
    let s = 4 + l;
    assert(t@.subrange(s as int, tn as int) =~= trim_start(t@.subrange(4, tn as int)));
    let w = word_len(&t, s, tn);
    let tok = string_of(&t, s, s + w);
    assert(t@.subrange(s as int, s + w) =~= t@.subrange(s as int, tn as int).take(w as int));
    let nbytes = tok.as_str().as_bytes().len();
    if nbytes < 4 || nbytes > 40 || !looks_hex(&t, s, s + w) {
        return None;
    }
    Some(tok)
}

fn looks_hex(v: &Vec<char>, lo: usize, hi: usize) -> (r: bool)
    requires
        lo <= hi <= v@.len(),
    ensures
        r == all_hex(v@.subrange(lo as int, hi as int)),
{
    let mut k = lo;
    while k < hi
        invariant
            lo <= k <= hi <= v@.len(),
            forall|j: int| lo <= j < k ==> #[trigger] crate::text::is_hex_digit(v@[j]),
        decreases hi - k,
    {
        if !crate::text::char_is_hex_digit(v[k]) {
            assert(v@.subrange(lo as int, hi as int)[k - lo] == v@[k as int]);
            return false;
        }
        k = k + 1;
    }
    assert forall|j: int| 0 <= j < hi - lo implies #[trigger] crate::text::is_hex_digit(
        v@.subrange(lo as int, hi as int)[j],
    ) by {
        assert(v@.subrange(lo as int, hi as int)[j] == v@[lo + j]);
    }
    true
}

/// The object names of the `pick` lines among `ls[..i]`, in order.
pub open spec fn todo_picks(ls: Seq<Seq<char>>, i: int) -> Seq<Seq<char>>
    decreases i,
{
    if i <= 0 || i > ls.len() {
        Seq::empty()
    } else {
        match todo_pick_token(ls[i - 1]) {
            Some(t) => todo_picks(ls, i - 1).push(t),
            None => todo_picks(ls, i - 1),
        }
    }
}

/// The commits that the sequencer's todo list still has to pick, in order (the object names
/// of its `pick` lines).
pub fn todo_pick_oids(content: &str) -> (r: Vec<String>)
    ensures
        views(r@) == todo_picks(lines(content@), lines(content@).len() as int),
{
    let v = chars_of(content);
    let ls = split_lines(&v);
    let ghost lsv = lines(v@);
    let mut out: Vec<String> = Vec::new();
    let mut i: usize = 0;
    assert(views(out@) =~= Seq::<Seq<char>>::empty());
    while i < ls.len()
        invariant
            lsv == lines(v@),
            v@ == content@,
            ls@.len() == lsv.len(),
            forall|j: int|
                #![trigger ls@[j]]
                0 <= j < ls@.len() ==> ls@[j].0 <= ls@[j].1 <= v@.len() && v@.subrange(
                    ls@[j].0 as int,
                    ls@[j].1 as int,
                ) == lsv[j],
            i <= ls@.len(),
            views(out@) == todo_picks(lsv, i as int),
        decreases ls@.len() - i,
    {
        let (lo, hi) = ls[i];
        assert(v@.subrange(lo as int, hi as int) == lsv[i as int]);
        let line = string_of(&v, lo, hi);
        match parse_todo_pick_line(line.as_str()) {
            Some(t) => {
                let ghost before = out@;
                out.push(t);
                proof {
                    lemma_views_push(before, t);
                }
            },
            None => {},
        }
        i = i + 1;
    }
    out
}

/// A line of the todo list that is neither blank, nor a comment, nor a `pick` line.
pub open spec fn todo_line_invalid(line: Seq<char>) -> bool {
    let t = trim(line);
    t.len() > 0 && t[0] != '#' && todo_pick_token(line) is None
}

/// The first invalid line among `ls[i..]`, trimmed.
pub open spec fn first_invalid_todo(ls: Seq<Seq<char>>, i: int) -> Option<Seq<char>>
    decreases ls.len() - i,
{
    if i < 0 || i >= ls.len() {
        None
    } else if todo_line_invalid(ls[i]) {
        Some(trim(ls[i]))
    } else {
        first_invalid_todo(ls, i + 1)
    }
}

/// The first line of the sequencer's todo list that is not a `pick` line (blank lines and
/// `#` comments are allowed), trimmed; `None` when every line is acceptable.
pub fn first_invalid_todo_line(content: &str) -> (r: Option<String>)
    ensures
        opt_view(r) == first_invalid_todo(lines(content@), 0),
{
    let v = chars_of(content);
    let ls = split_lines(&v);
    let ghost lsv = lines(v@);
    let mut i: usize = 0;
    while i < ls.len()
        invariant
            lsv == lines(v@),
            v@ == content@,
            ls@.len() == lsv.len(),
            forall|j: int|
                #![trigger ls@[j]]
                0 <= j < ls@.len() ==> ls@[j].0 <= ls@[j].1 <= v@.len() && v@.subrange(
                    ls@[j].0 as int,
                    ls@[j].1 as int,
                ) == lsv[j],
            i <= ls@.len(),
            first_invalid_todo(lsv, 0) == first_invalid_todo(lsv, i as int),
        decreases ls@.len() - i,
    {
        let (lo, hi) = ls[i];
        assert(v@.subrange(lo as int, hi as int) == lsv[i as int]);
        let line = string_of(&v, lo, hi);
        let (a, b) = trim_bounds(&v, lo, hi);
        if a < b && v[a] != '#' {
            assert(v@.subrange(a as int, b as int)[0] == v@[a as int]);
            if parse_todo_pick_line(line.as_str()).is_none() {
                let t = string_of(&v, a, b);
                return Some(t);
            }
        } else if a < b {
            assert(v@.subrange(a as int, b as int)[0] == v@[a as int]);
        }
        i = i + 1;
    }
    None
}

/// One `\tkey = value\n` line of the sequencer's options file.
pub open spec fn opt_line(key: Seq<char>, value: Seq<char>) -> Seq<char> {
    "\t"@ + key + " = "@ + value + "\n"@
}

/// The `strategy-option` lines, in order.
pub open spec fn strategy_option_lines(xs: Seq<Seq<char>>) -> Seq<char>
    decreases xs.len(),
{
    if xs.len() == 0 {
        Seq::empty()
    } else {
        strategy_option_lines(xs.drop_last()) + opt_line("strategy-option"@, xs.last())
    }
}

pub open spec fn line_if(c: bool, l: Seq<char>) -> Seq<char> {
    if c {
        l
    } else {
        Seq::empty()
    }
}

/// The sequencer's `opts` file for a pick: the options that `--continue` has to apply again.
pub open spec fn sequencer_opts(args: Args) -> Seq<char> {
    "[options]\n"@ + line_if(args.signoff, opt_line("signoff"@, "true"@)) + line_if(
        args.append_source,
        opt_line("record-origin"@, "true"@),
    ) + match args.mainline {
        Some(m) => opt_line("mainline"@, nat_text(m as nat)),
        None => Seq::empty(),
    } + match args.strategy {
        Some(s) => opt_line("strategy"@, s@),
        None => Seq::empty(),
    } + strategy_option_lines(views(args.strategy_option@)) + (if args.rerere_autoupdate {
        opt_line("allow-rerere-auto"@, "true"@)
    } else if args.no_rerere_autoupdate {
        opt_line("allow-rerere-auto"@, "false"@)
    } else {
        Seq::empty()
    }) + line_if(args.edit, opt_line("edit"@, "true"@)) + line_if(
        args.allow_empty,
        opt_line("allow-empty"@, "true"@),
    ) + line_if(args.allow_empty_message, opt_line("allow-empty-message"@, "true"@)) + line_if(
        args.keep_redundant_commits,
        opt_line("keep-redundant-commits"@, "true"@),
    ) + match args.empty {
        Some(e) => opt_line("empty"@, e@),
        None => Seq::empty(),
    } + match args.cleanup {
        Some(c) => opt_line("cleanup"@, c@),
        None => Seq::empty(),
    }
}

fn push_opt_line(out: &mut Vec<char>, key: &str, value: &[char])
    ensures
        final(out)@ == old(out)@ + opt_line(key@, value@),
{
    let tab = chars_of("\t");
    push_all(out, &tab);
    let k = chars_of(key);
    push_all(out, &k);
    let eq = chars_of(" = ");
    push_all(out, &eq);
    push_all(out, value);
    let nl = chars_of("\n");
    push_all(out, &nl);
    assert(out@ =~= old(out)@ + opt_line(key@, value@));
}

/// The text of the sequencer's `opts` file for these options.
#[verifier::spinoff_prover]
#[verifier::rlimit(40)]
pub fn sequencer_opts_text(args: &Args) -> (r: String)
    ensures
        r@ == sequencer_opts(*args),
{
    let mut out = chars_of("[options]\n");
    let t = chars_of("true");
    let f = chars_of("false");
    let ghost o0 = out@;
    if args.signoff {
        push_opt_line(&mut out, "signoff", &t);
    }
    if args.append_source {
        push_opt_line(&mut out, "record-origin", &t);
    }
    let ghost o1 = out@;
    assert(o1 == "[options]\n"@ + line_if(args.signoff, opt_line("signoff"@, "true"@)) + line_if(
        args.append_source,
        opt_line("record-origin"@, "true"@),
    ));
    match args.mainline {
        Some(m) => {
            let mut d: Vec<char> = Vec::new();
            push_u64_text(&mut d, m as u64);
            assert(d@ =~= nat_text(m as nat));
            push_opt_line(&mut out, "mainline", &d);
        },
        None => {},
    }
    match &args.strategy {
        Some(s) => {
            let sv = chars_of(s.as_str());
            push_opt_line(&mut out, "strategy", &sv);
        },
        None => {},
    }
    let ghost o2 = out@;
    let ghost xs = views(args.strategy_option@);
    let mut i: usize = 0;
    assert(xs.take(0) =~= Seq::<Seq<char>>::empty());
    assert(out@ =~= o2 + strategy_option_lines(xs.take(0)));
    while i < args.strategy_option.len()
        invariant
            xs == views(args.strategy_option@),
            i <= xs.len(),
            out@ == o2 + strategy_option_lines(xs.take(i as int)),
        decreases xs.len() - i,
    {
        let x = chars_of(args.strategy_option[i].as_str());
        push_opt_line(&mut out, "strategy-option", &x);
        assert(xs.take(i + 1).drop_last() =~= xs.take(i as int));
        assert(xs.take(i + 1).last() == x@);
        i = i + 1;
        assert(out@ =~= o2 + strategy_option_lines(xs.take(i as int)));
    }
    assert(xs.take(xs.len() as int) =~= xs);
    let ghost o3 = out@;
    if args.rerere_autoupdate {
        push_opt_line(&mut out, "allow-rerere-auto", &t);
    } else if args.no_rerere_autoupdate {
        push_opt_line(&mut out, "allow-rerere-auto", &f);
    }
    if args.edit {
        push_opt_line(&mut out, "edit", &t);
    }
    if args.allow_empty {
        push_opt_line(&mut out, "allow-empty", &t);
    }
    if args.allow_empty_message {
        push_opt_line(&mut out, "allow-empty-message", &t);
    }
    if args.keep_redundant_commits {
        push_opt_line(&mut out, "keep-redundant-commits", &t);
    }
    match &args.empty {
        Some(e) => {
            let ev = chars_of(e.as_str());
            push_opt_line(&mut out, "empty", &ev);
        },
        None => {},
    }
    match &args.cleanup {
        Some(c) => {
            let cv = chars_of(c.as_str());
            push_opt_line(&mut out, "cleanup", &cv);
        },
        None => {},
    }
    assert(out@ =~= sequencer_opts(*args));
    string_all(&out)
}

// ----- reading the options back ----------------------------------------------------------

/// What `str::parse::<usize>` reads: an optional `+`, then decimal digits, within range.
pub open spec fn usize_text(v: Seq<char>) -> Option<nat> {
    let d = if v.len() > 0 && v[0] == '+' {
        v.drop_first()
    } else {
        v
    };
    if d.len() > 0 && all_digits(d) && dec_val(d) <= usize::MAX {
        Some(dec_val(d))
    } else {
        None
    }
}

/// The options that reading the sequencer's `opts` file can set, as plain values.
#[verifier::ext_equal]
pub struct OptsState {
    pub signoff: bool,
    pub append_source: bool,
    pub no_commit: bool,
    pub edit: bool,
    pub allow_empty: bool,
    pub allow_empty_message: bool,
    pub keep_redundant_commits: bool,
    pub mainline: Option<usize>,
    pub strategy: Option<Seq<char>>,
    pub strategy_option: Seq<Seq<char>>,
    pub rerere_autoupdate: bool,
    pub no_rerere_autoupdate: bool,
    pub empty: Option<Seq<char>>,
    pub cleanup: Option<Seq<char>>,
}

pub open spec fn opts_state(a: Args) -> OptsState {
    OptsState {
        signoff: a.signoff,
        append_source: a.append_source,
        no_commit: a.no_commit,
        edit: a.edit,
        allow_empty: a.allow_empty,
        allow_empty_message: a.allow_empty_message,
        keep_redundant_commits: a.keep_redundant_commits,
        mainline: a.mainline,
        strategy: opt_view(a.strategy),
        strategy_option: views(a.strategy_option@),
        rerere_autoupdate: a.rerere_autoupdate,
        no_rerere_autoupdate: a.no_rerere_autoupdate,
        empty: opt_view(a.empty),
        cleanup: opt_view(a.cleanup),
    }
}

/// The effect of one `key = value` setting (keys as written in the file).
pub open spec fn apply_opt(key: Seq<char>, val: Seq<char>, st: OptsState) -> OptsState {
    let yes = val == "true"@;
    if key == "signoff"@ {
        if yes { OptsState { signoff: true, ..st } } else { st }
    } else if key == "append_source"@ || key == "record-origin"@ {
        if yes { OptsState { append_source: true, ..st } } else { st }
    } else if key == "no_commit"@ {
        if yes { OptsState { no_commit: true, ..st } } else { st }
    } else if key == "edit"@ {
        if yes { OptsState { edit: true, ..st } } else { st }
    } else if key == "allow-empty"@ {
        if yes { OptsState { allow_empty: true, ..st } } else { st }
    } else if key == "allow-empty-message"@ {
        if yes { OptsState { allow_empty_message: true, ..st } } else { st }
    } else if key == "keep-redundant-commits"@ {
        if yes { OptsState { keep_redundant_commits: true, allow_empty: true, ..st } } else { st }
    } else if key == "mainline"@ {
        match usize_text(val) {
            Some(m) => OptsState { mainline: Some(m as usize), ..st },
            None => st,
        }
    } else if key == "strategy"@ {
        OptsState { strategy: Some(val), ..st }
    } else if key == "strategy-option"@ {
        OptsState { strategy_option: st.strategy_option.push(val), ..st }
    } else if key == "allow-rerere-auto"@ {
        if yes {
            OptsState { rerere_autoupdate: true, ..st }
        } else if val == "false"@ {
            OptsState { no_rerere_autoupdate: true, ..st }
        } else {
            st
        }
    } else if key == "empty"@ {
        OptsState { empty: Some(val), ..st }
    } else if key == "cleanup"@ {
        OptsState { cleanup: Some(val), ..st }
    } else {
        st
    }
}

/// The effect of one line of the `opts` file: blank lines, `#` comments and `[section]`
/// headers do nothing; `key = value` (key and value trimmed, an `options.` prefix on the key
/// dropped) is applied.
pub open spec fn opts_line_step(raw: Seq<char>, st: OptsState) -> OptsState {
    let line = trim(raw);
    if line.len() == 0 || line[0] == '#' || (line[0] == '[' && line.last() == ']') {
        st
    } else {
        match find(line, seq!['=']) {
            None => st,
            Some(q) => {
                let k0 = trim(line.take(q));
                let key = if starts_with(k0, "options."@) {
                    k0.subrange(8, k0.len() as int)
                } else {
                    k0
                };
                apply_opt(key, trim(line.subrange(q + 1, line.len() as int)), st)
            },
        }
    }
}

/// The effect of the lines `ls[i..]`.
pub open spec fn opts_fold(ls: Seq<Seq<char>>, i: int, st: OptsState) -> OptsState
    decreases ls.len() - i,
{
    if i < 0 || i >= ls.len() {
        st
    } else {
        opts_fold(ls, i + 1, opts_line_step(ls[i], st))
    }
}

/// The options while they are read.
struct PickOpts {
    signoff: bool,
    append_source: bool,
    no_commit: bool,
    edit: bool,
    allow_empty: bool,
    allow_empty_message: bool,
    keep_redundant_commits: bool,
    mainline: Option<usize>,
    strategy: Option<String>,
    strategy_option: Vec<String>,
    rerere_autoupdate: bool,
    no_rerere_autoupdate: bool,
    empty: Option<String>,
    cleanup: Option<String>,
}

spec fn pick_opts_view(p: PickOpts) -> OptsState {
    OptsState {
        signoff: p.signoff,
        append_source: p.append_source,
        no_commit: p.no_commit,
        edit: p.edit,
        allow_empty: p.allow_empty,
        allow_empty_message: p.allow_empty_message,
        keep_redundant_commits: p.keep_redundant_commits,
        mainline: p.mainline,
        strategy: opt_view(p.strategy),
        strategy_option: views(p.strategy_option@),
        rerere_autoupdate: p.rerere_autoupdate,
        no_rerere_autoupdate: p.no_rerere_autoupdate,
        empty: opt_view(p.empty),
        cleanup: opt_view(p.cleanup),
    }
}

/// `b` agrees with `a` on the options that the `opts` file cannot set.
pub open spec fn same_other_pick_fields(a: Args, b: Args) -> bool {
    &&& a.commits == b.commits
    &&& a.continue_pick == b.continue_pick
    &&& a.abort == b.abort
    &&& a.skip == b.skip
    &&& a.quit == b.quit
    &&& a.ff == b.ff
    &&& a.reference == b.reference
    &&& a.stdin == b.stdin
}

#[verifier::spinoff_prover]
fn take_pick_opts(args: &mut Args) -> (p: PickOpts)
    ensures
        pick_opts_view(p) =~= opts_state(*old(args)),
        same_other_pick_fields(*old(args), *final(args)),
{
    let mut strategy: Option<String> = None;
    std::mem::swap(&mut strategy, &mut args.strategy);
    let mut strategy_option: Vec<String> = Vec::new();
    std::mem::swap(&mut strategy_option, &mut args.strategy_option);
    let mut empty: Option<String> = None;
    std::mem::swap(&mut empty, &mut args.empty);
    let mut cleanup: Option<String> = None;
    std::mem::swap(&mut cleanup, &mut args.cleanup);
    PickOpts {
        signoff: args.signoff,
        append_source: args.append_source,
        no_commit: args.no_commit,
        edit: args.edit,
        allow_empty: args.allow_empty,
        allow_empty_message: args.allow_empty_message,
        keep_redundant_commits: args.keep_redundant_commits,
        mainline: args.mainline,
        strategy,
        strategy_option,
        rerere_autoupdate: args.rerere_autoupdate,
        no_rerere_autoupdate: args.no_rerere_autoupdate,
        empty,
        cleanup,
    }
}

#[verifier::spinoff_prover]
fn store_pick_opts(args: &mut Args, p: PickOpts)
    ensures
        opts_state(*final(args)) =~= pick_opts_view(p),
        same_other_pick_fields(*old(args), *final(args)),
{
    args.signoff = p.signoff;
    args.append_source = p.append_source;
    args.no_commit = p.no_commit;
    args.edit = p.edit;
    args.allow_empty = p.allow_empty;
    args.allow_empty_message = p.allow_empty_message;
    args.keep_redundant_commits = p.keep_redundant_commits;
    args.mainline = p.mainline;
    args.strategy = p.strategy;
    args.strategy_option = p.strategy_option;
    args.rerere_autoupdate = p.rerere_autoupdate;
    args.no_rerere_autoupdate = p.no_rerere_autoupdate;
    args.empty = p.empty;
    args.cleanup = p.cleanup;
}

/// `str::parse::<usize>` on `v`.
fn parse_usize_text(v: &Vec<char>) -> (r: Option<usize>)
    ensures
        match r {
            Some(n) => usize_text(v@) == Some(n as nat),
            None => usize_text(v@) is None,
        },
{
    let start: usize = if v.len() > 0 && v[0] == '+' {
        1
    } else {
        0
    };
    let n = v.len();
    assert(start == 1 ==> v@.subrange(1, n as int) =~= v@.drop_first());
    assert(start == 0 ==> v@.subrange(0, n as int) =~= v@);
    if start == n || !range_all_digits(v, start, n) {
        return None;
    }
    parse_usize(v, start, n)
}

/// Applies one `key = value` setting.
#[verifier::rlimit(30)]
fn apply_opt_exec(p: &mut PickOpts, key: &Vec<char>, val: &Vec<char>)
    ensures
        pick_opts_view(*final(p)) == apply_opt(key@, val@, pick_opts_view(*old(p))),
{
    let yes = eq_lit(val, "true");
    let ghost st = pick_opts_view(*old(p));
    if eq_lit(key, "signoff") {
        if yes {
            p.signoff = true;
        }
    } else if eq_lit(key, "append_source") || eq_lit(key, "record-origin") {
        if yes {
            p.append_source = true;
        }
    } else if eq_lit(key, "no_commit") {
        if yes {
            p.no_commit = true;
        }
    } else if eq_lit(key, "edit") {
        if yes {
            p.edit = true;
        }
    } else if eq_lit(key, "allow-empty") {
        if yes {
            p.allow_empty = true;
        }
    } else if eq_lit(key, "allow-empty-message") {
        if yes {
            p.allow_empty_message = true;
        }
    } else if eq_lit(key, "keep-redundant-commits") {
        if yes {
            p.keep_redundant_commits = true;
            p.allow_empty = true;
        }
    } else if eq_lit(key, "mainline") {
        match parse_usize_text(val) {
            Some(m) => {
                p.mainline = Some(m);
            },
            None => {},
        }
    } else if eq_lit(key, "strategy") {
        p.strategy = Some(string_all(val));
    } else if eq_lit(key, "strategy-option") {
        let ghost before = p.strategy_option@;
        let s = string_all(val);
        p.strategy_option.push(s);
        proof {
            lemma_views_push(before, s);
        }
        assert(pick_opts_view(*p) =~= OptsState { strategy_option: st.strategy_option.push(val@), ..st });
    } else if eq_lit(key, "allow-rerere-auto") {
        if yes {
            p.rerere_autoupdate = true;
        } else if eq_lit(val, "false") {
            p.no_rerere_autoupdate = true;
        }
    } else if eq_lit(key, "empty") {
        p.empty = Some(string_all(val));
    } else if eq_lit(key, "cleanup") {
        p.cleanup = Some(string_all(val));
    }
}

/// Applies one line of the `opts` file.
fn apply_opts_line(p: &mut PickOpts, v: &Vec<char>, lo: usize, hi: usize)
    requires
        lo <= hi <= v@.len(),
    ensures
        pick_opts_view(*final(p)) == opts_line_step(v@.subrange(lo as int, hi as int), pick_opts_view(*old(p))),
{
    let (a, b) = trim_bounds(v, lo, hi);
    let mut line: Vec<char> = Vec::new();
    push_range(&mut line, v, a, b);
    assert(line@ =~= trim(v@.subrange(lo as int, hi as int)));
    let n = line.len();
    if n == 0 || line[0] == '#' || (line[0] == '[' && line[n - 1] == ']') {
        return;
    }
    let eq = vec!['='];
    assert(eq@ =~= seq!['=']);
    let q = match find_at(&line, &eq, 0) {
        Some(q) => q,
        None => {
            return;
        },
    };
    proof {
        lemma_find_from_props(line@, eq@, 0);
        assert(occurs_at(line@, eq@, q as int));
    }
    let (ka, kb) = trim_bounds(&line, 0, q);
    let mut k0: Vec<char> = Vec::new();
    push_range(&mut k0, &line, ka, kb);
    assert(line@.subrange(0, q as int) =~= line@.take(q as int));
    assert(k0@ =~= trim(line@.take(q as int)));
    let pre = chars_of("options.");
    proof {
        reveal_strlit("options.");
    }
    let key = if has_prefix(&k0, &pre) {
        let kn = k0.len();
        let mut k: Vec<char> = Vec::new();
        push_range(&mut k, &k0, 8, kn);
        k
    } else {
        k0
    };
    let (va, vb) = trim_bounds(&line, q + 1, n);
    let mut val: Vec<char> = Vec::new();
    push_range(&mut val, &line, va, vb);
    assert(val@ =~= trim(line@.subrange(q + 1, n as int)));
    apply_opt_exec(p, &key, &val);
}

/// Applies the sequencer's saved options (the text of its `opts` file) to `args`, so that
/// `--continue` uses the flags of the original pick again.
pub fn merge_sequencer_opts(content: &str, args: &mut Args)
    ensures
        opts_state(*final(args)) == opts_fold(lines(content@), 0, opts_state(*old(args))),
        same_other_pick_fields(*old(args), *final(args)),
{
    let v = chars_of(content);
    let ls = split_lines(&v);
    let ghost lsv = lines(v@);
    let mut p = take_pick_opts(args);
    let ghost target = opts_fold(lsv, 0, opts_state(*old(args)));
    let mut i: usize = 0;
    while i < ls.len()
        invariant
            lsv == lines(v@),
            ls@.len() == lsv.len(),
            forall|j: int|
                #![trigger ls@[j]]
                0 <= j < ls@.len() ==> ls@[j].0 <= ls@[j].1 <= v@.len() && v@.subrange(
                    ls@[j].0 as int,
                    ls@[j].1 as int,
                ) == lsv[j],
            i <= ls@.len(),
            opts_fold(lsv, i as int, pick_opts_view(p)) == target,
        decreases ls@.len() - i,
    {
        let (lo, hi) = ls[i];
        assert(v@.subrange(lo as int, hi as int) == lsv[i as int]);
        apply_opts_line(&mut p, &v, lo, hi);
        i = i + 1;
    }
    store_pick_opts(args, p);
}

// ----- writing the options and reading them back ------------------------------------------

/// What reading the text `t` of an `opts` file does to the options `st`.
pub open spec fn opts_read(t: Seq<char>, st: OptsState) -> OptsState {
    opts_fold(lines(t), 0, st)
}

proof fn lemma_opts_fold_shift(p: Seq<Seq<char>>, ls: Seq<Seq<char>>, j: int, st: OptsState)
    requires
        0 <= j,
    ensures
        opts_fold(p + ls, p.len() + j, st) == opts_fold(ls, j, st),
    decreases ls.len() - j,
{
    if j < ls.len() {
        assert((p + ls)[p.len() + j] == ls[j]);
        lemma_opts_fold_shift(p, ls, j + 1, opts_line_step(ls[j], st));
    }
}

proof fn lemma_opts_fold_append(a: Seq<Seq<char>>, b: Seq<Seq<char>>, i: int, st: OptsState)
    requires
        0 <= i <= a.len(),
    ensures
        opts_fold(a + b, i, st) == opts_fold(b, 0, opts_fold(a, i, st)),
    decreases a.len() - i,
{
    if i == a.len() {
        lemma_opts_fold_shift(a, b, 0, st);
    } else {
        assert((a + b)[i] == a[i]);
        lemma_opts_fold_append(a, b, i + 1, opts_line_step(a[i], st));
    }
}

/// Reading two pieces of text, the first ending at a line break, reads one after the other.
proof fn lemma_opts_read_concat(x: Seq<char>, y: Seq<char>, st: OptsState)
    requires
        crate::text::nl_terminated(x),
        crate::text::nl_terminated(y),
    ensures
        crate::text::nl_terminated(x + y),
        opts_read(x + y, st) == opts_read(y, opts_read(x, st)),
{
    crate::text::lemma_lines_append(x, y);
    lemma_opts_fold_append(lines(x), lines(y), 0, st);
    if y.len() == 0 {
        assert(x + y =~= x);
    } else {
        assert((x + y).last() == y.last());
    }
}

/// A key as the `opts` file writes it: lowercase letters and `-`.
pub open spec fn plain_key(k: Seq<char>) -> bool {
    &&& k.len() > 0
    &&& forall|i: int| 0 <= i < k.len() ==> #[trigger] is_key_char(k[i])
}

pub open spec fn is_key_char(c: char) -> bool {
    ('a' <= c && c <= 'z') || c == '-'
}

/// A value that the `opts` file carries unchanged: a single line without whitespace at its
/// ends.
pub open spec fn plain_value(v: Seq<char>) -> bool {
    &&& forall|i: int| 0 <= i < v.len() ==> v[i] != '\n'
    &&& crate::text::no_edge_ws(v)
}

proof fn lemma_trim_lead_one(c: char, u: Seq<char>)
    requires
        is_ws(c),
        u.len() > 0,
        !is_ws(u[0]),
    ensures
        trim_start(seq![c] + u) == u,
{
    let s = seq![c] + u;
    assert(s.drop_first() =~= u);
    assert(lead_len(u, crate::text::ws()) == 0);
    assert(lead_len(s, crate::text::ws()) == 1);
    assert(s.subrange(1, s.len() as int) =~= u);
}

proof fn lemma_trim_end_drop_one(u: Seq<char>, c: char)
    requires
        is_ws(c),
        u.len() > 0,
        !is_ws(u.last()),
    ensures
        trim_end(u.push(c)) == u,
{
    let s = u.push(c);
    assert(s.drop_last() =~= u);
    assert(crate::text::kept_len(u, crate::text::ws()) == u.len());
    assert(crate::text::kept_len(s, crate::text::ws()) == u.len());
    assert(s.subrange(0, u.len() as int) =~= u);
}

/// One `key = value` line reads back as setting `key` to `value`.
proof fn lemma_opt_line_read(k: Seq<char>, v: Seq<char>, st: OptsState)
    requires
        plain_key(k),
        plain_value(v),
    ensures
        crate::text::nl_terminated(opt_line(k, v)),
        opts_read(opt_line(k, v), st) == apply_opt(k, v, st),
{
    reveal_strlit("\t");
    reveal_strlit(" = ");
    reveal_strlit("\n");
    reveal_strlit("options.");
    let l = opt_line(k, v);
    let kl = k.len() as int;
    let n = l.len() as int;
    let u = k + " = "@ + v;
    let body = seq!['\t'] + u;
    assert(l =~= body.push('\n'));
    assert(is_key_char(k[0]));
    assert(is_key_char(k[kl - 1]));
    // the only line break is the last character
    assert forall|j: int| 0 <= j < n - 1 implies l[j] != '\n' by {
        if 1 <= j < 1 + kl {
            assert(l[j] == k[j - 1]);
            assert(is_key_char(k[j - 1]));
        } else if j >= kl + 4 {
            assert(l[j] == v[j - kl - 4]);
        }
    }
    crate::text::lemma_pos_of_eq(l, '\n', n - 1);
    assert(l.subrange(0, n - 1) =~= body);
    assert(l.subrange(n, n) =~= Seq::<char>::empty());
    if v.len() > 0 {
        assert(body.last() == v.last());
    }
    assert(crate::text::strip_cr(body) == body);
    assert(lines(l.subrange(n, n)) =~= Seq::<Seq<char>>::empty());
    assert(lines(l) =~= seq![body]);
    assert(opts_fold(seq![body], 1, opts_line_step(body, st)) == opts_line_step(body, st));
    assert(opts_read(l, st) == opts_line_step(body, st));
    // the trimmed line: the key, ` =`, and ` value` when there is a value
    lemma_trim_lead_one('\t', u);
    let w = if v.len() > 0 { seq![' '] + v } else { Seq::<char>::empty() };
    let t = k + seq![' ', '='] + w;
    if v.len() > 0 {
        assert(u =~= t);
        crate::text::lemma_trim_no_edge_ws(t);
        assert(trim_end(u) == t);
    } else {
        assert(u =~= t.push(' '));
        lemma_trim_end_drop_one(t, ' ');
    }
    assert(trim(body) == t);
    assert(t[0] == k[0]);
    // the first `=` follows the key and a space
    let q = kl + 1;
    let eq = seq!['='];
    assert(t.subrange(q, q + 1) =~= eq);
    assert forall|j: int| 0 <= j < q implies !occurs_at(t, eq, j) by {
        if j < kl {
            assert(t.subrange(j, j + 1)[0] == k[j]);
            assert(is_key_char(k[j]));
        } else {
            assert(t.subrange(j, j + 1)[0] == ' ');
        }
    }
    crate::text::lemma_find_from_exact(t, eq, 0, q);
    assert(t.take(q) =~= k.push(' '));
    assert(crate::text::no_edge_ws(k));
    lemma_trim_end_drop_one(k, ' ');
    assert(trim(t.take(q)) == k) by {
        assert(lead_len(k.push(' '), crate::text::ws()) == 0);
        assert(trim_start(k.push(' ')) =~= k.push(' '));
    }
    if starts_with(k, "options."@) {
        assert(k.subrange(0, 8)[7] == '.');
        assert(is_key_char(k[7]));
    }
    let rest = t.subrange(q + 1, t.len() as int);
    assert(rest =~= w);
    if v.len() > 0 {
        lemma_trim_lead_one(' ', v);
        crate::text::lemma_trim_no_edge_ws(v);
        assert(trim(rest) == v);
    } else {
        assert(trim(rest) =~= v);
    }
}

/// The `[options]` header line changes nothing.
proof fn lemma_header_read(st: OptsState)
    ensures
        crate::text::nl_terminated("[options]\n"@),
        opts_read("[options]\n"@, st) == st,
{
    reveal_strlit("[options]\n");
    let l = "[options]\n"@;
    let h = l.drop_last();
    assert(forall|j: int| 0 <= j < 9 ==> l[j] != '\n');
    crate::text::lemma_pos_of_eq(l, '\n', 9);
    assert(l.subrange(0, 9) =~= h);
    assert(l.subrange(10, 10) =~= Seq::<char>::empty());
    assert(lines(l.subrange(10, 10)) =~= Seq::<Seq<char>>::empty());
    assert(crate::text::strip_cr(h) == h);
    assert(lines(l) =~= seq![h]);
    crate::text::lemma_trim_no_edge_ws(h);
    assert(opts_fold(seq![h], 1, opts_line_step(h, st)) == opts_line_step(h, st));
}

/// A line written only when `c` holds.
proof fn lemma_line_if_read(c: bool, l: Seq<char>, st: OptsState)
    requires
        crate::text::nl_terminated(l),
    ensures
        crate::text::nl_terminated(line_if(c, l)),
        opts_read(line_if(c, l), st) == (if c { opts_read(l, st) } else { st }),
{
    if !c {
        assert(lines(Seq::<char>::empty()) =~= Seq::<Seq<char>>::empty());
    }
}

/// The keys that the `opts` file is written with.
proof fn lemma_keys_plain()
    ensures
        plain_key("signoff"@),
        plain_key("record-origin"@),
        plain_key("mainline"@),
        plain_key("strategy"@),
        plain_key("strategy-option"@),
        plain_key("allow-rerere-auto"@),
        plain_key("edit"@),
        plain_key("allow-empty"@),
        plain_key("allow-empty-message"@),
        plain_key("keep-redundant-commits"@),
        plain_key("empty"@),
        plain_key("cleanup"@),
        plain_value("true"@),
        plain_value("false"@),
{
    reveal_strlit("signoff");
    reveal_strlit("record-origin");
    reveal_strlit("mainline");
    reveal_strlit("strategy");
    reveal_strlit("strategy-option");
    reveal_strlit("allow-rerere-auto");
    reveal_strlit("edit");
    reveal_strlit("allow-empty");
    reveal_strlit("allow-empty-message");
    reveal_strlit("keep-redundant-commits");
    reveal_strlit("empty");
    reveal_strlit("cleanup");
    reveal_strlit("true");
    reveal_strlit("false");
}

/// What each key that the `opts` file is written with does.
proof fn lemma_apply_written_keys(v: Seq<char>, st: OptsState)
    ensures
        apply_opt("signoff"@, "true"@, st) == (OptsState { signoff: true, ..st }),
        apply_opt("record-origin"@, "true"@, st) == (OptsState { append_source: true, ..st }),
        apply_opt("strategy"@, v, st) == (OptsState { strategy: Some(v), ..st }),
        apply_opt("strategy-option"@, v, st) == (OptsState { strategy_option: st.strategy_option.push(v), ..st }),
        apply_opt("allow-rerere-auto"@, "true"@, st) == (OptsState { rerere_autoupdate: true, ..st }),
        apply_opt("allow-rerere-auto"@, "false"@, st) == (OptsState { no_rerere_autoupdate: true, ..st }),
        apply_opt("edit"@, "true"@, st) == (OptsState { edit: true, ..st }),
        apply_opt("allow-empty"@, "true"@, st) == (OptsState { allow_empty: true, ..st }),
        apply_opt("allow-empty-message"@, "true"@, st) == (OptsState { allow_empty_message: true, ..st }),
        apply_opt("keep-redundant-commits"@, "true"@, st) == (OptsState { keep_redundant_commits: true, allow_empty: true, ..st }),
        apply_opt("empty"@, v, st) == (OptsState { empty: Some(v), ..st }),
        apply_opt("cleanup"@, v, st) == (OptsState { cleanup: Some(v), ..st }),
{
    reveal_strlit("signoff");
    reveal_strlit("record-origin");
    reveal_strlit("append_source");
    reveal_strlit("no_commit");
    reveal_strlit("mainline");
    reveal_strlit("strategy");
    reveal_strlit("strategy-option");
    reveal_strlit("allow-rerere-auto");
    reveal_strlit("edit");
    reveal_strlit("allow-empty");
    reveal_strlit("allow-empty-message");
    reveal_strlit("keep-redundant-commits");
    reveal_strlit("empty");
    reveal_strlit("cleanup");
    reveal_strlit("true");
    reveal_strlit("false");
    lemma_key_literals();
}

/// The lengths and first characters that tell the keys apart.
proof fn lemma_key_literals()
    ensures
        "signoff"@.len() == 7 && "signoff"@[0] == 's',
        "append_source"@.len() == 13 && "append_source"@[0] == 'a',
        "record-origin"@.len() == 13 && "record-origin"@[0] == 'r',
        "no_commit"@.len() == 9,
        "edit"@.len() == 4,
        "allow-empty"@.len() == 11,
        "allow-empty-message"@.len() == 19,
        "keep-redundant-commits"@.len() == 22,
        "mainline"@.len() == 8 && "mainline"@[0] == 'm',
        "strategy"@.len() == 8 && "strategy"@[0] == 's',
        "strategy-option"@.len() == 15,
        "allow-rerere-auto"@.len() == 17,
        "empty"@.len() == 5,
        "cleanup"@.len() == 7 && "cleanup"@[0] == 'c',
        "true"@.len() == 4,
        "false"@.len() == 5,
{
    reveal_strlit("signoff");
    reveal_strlit("record-origin");
    reveal_strlit("append_source");
    reveal_strlit("no_commit");
    reveal_strlit("mainline");
    reveal_strlit("strategy");
    reveal_strlit("strategy-option");
    reveal_strlit("allow-rerere-auto");
    reveal_strlit("edit");
    reveal_strlit("allow-empty");
    reveal_strlit("allow-empty-message");
    reveal_strlit("keep-redundant-commits");
    reveal_strlit("empty");
    reveal_strlit("cleanup");
    reveal_strlit("true");
    reveal_strlit("false");
}

/// `mainline = n` reads back as `n`.
proof fn lemma_mainline_read(m: usize, st: OptsState)
    ensures
        plain_value(nat_text(m as nat)),
        apply_opt("mainline"@, nat_text(m as nat), st) == (OptsState { mainline: Some(m), ..st }),
{
    lemma_key_literals();
    let d = nat_text(m as nat);
    crate::text::lemma_nat_text_value(m as nat);
    crate::text::lemma_nat_text_nonempty(m as nat);
    assert(crate::text::is_digit(d[0]));
    assert(crate::text::is_digit(d[d.len() - 1]));
    assert forall|i: int| 0 <= i < d.len() implies d[i] != '\n' by {
        assert(crate::text::is_digit(d[i]));
    }
    assert(!is_ws(d[0]) && !is_ws(d.last()));
    assert(usize_text(d) == Some(m as nat));
}

/// The `strategy-option` lines append their values, in order.
proof fn lemma_strategy_option_lines_read(xs: Seq<Seq<char>>, st: OptsState)
    requires
        forall|i: int| 0 <= i < xs.len() ==> plain_value(#[trigger] xs[i]),
    ensures
        crate::text::nl_terminated(strategy_option_lines(xs)),
        opts_read(strategy_option_lines(xs), st) == (OptsState { strategy_option: st.strategy_option + xs, ..st }),
    decreases xs.len(),
{
    if xs.len() == 0 {
        assert(lines(Seq::<char>::empty()) =~= Seq::<Seq<char>>::empty());
        assert(st.strategy_option + xs =~= st.strategy_option);
    } else {
        let pre = xs.drop_last();
        lemma_strategy_option_lines_read(pre, st);
        let st1 = (OptsState { strategy_option: st.strategy_option + pre, ..st });
        lemma_keys_plain();
        assert(plain_value(xs[xs.len() - 1]));
        lemma_opt_line_read("strategy-option"@, xs.last(), st1);
        lemma_opts_read_concat(
            strategy_option_lines(pre),
            opt_line("strategy-option"@, xs.last()),
            st,
        );
        lemma_apply_written_keys(xs.last(), st1);
        assert((st.strategy_option + pre).push(xs.last()) =~= st.strategy_option + xs);
    }
}

/// An optional `key = value` line.
pub open spec fn opt_value_line(k: Seq<char>, o: Option<String>) -> Seq<char> {
    match o {
        Some(x) => opt_line(k, x@),
        None => Seq::empty(),
    }
}

proof fn lemma_opt_value_line_read(k: Seq<char>, o: Option<String>, st: OptsState)
    requires
        plain_key(k),
        o matches Some(x) ==> plain_value(x@),
    ensures
        crate::text::nl_terminated(opt_value_line(k, o)),
        opts_read(opt_value_line(k, o), st) == match o {
            Some(x) => apply_opt(k, x@, st),
            None => st,
        },
{
    match o {
        Some(x) => {
            lemma_opt_line_read(k, x@, st);
        },
        None => {
            assert(lines(Seq::<char>::empty()) =~= Seq::<Seq<char>>::empty());
        },
    }
}

/// A `key = true` line written only when `c` holds.
proof fn lemma_flag_line_read(c: bool, k: Seq<char>, st: OptsState)
    requires
        plain_key(k),
    ensures
        crate::text::nl_terminated(line_if(c, opt_line(k, "true"@))),
        opts_read(line_if(c, opt_line(k, "true"@)), st) == (if c { apply_opt(k, "true"@, st) } else { st }),
{
    lemma_keys_plain();
    lemma_opt_line_read(k, "true"@, st);
    lemma_line_if_read(c, opt_line(k, "true"@), st);
}

/// No option set, as for a pick started without flags.
pub open spec fn unset_opts() -> OptsState {
    OptsState {
        signoff: false,
        append_source: false,
        no_commit: false,
        edit: false,
        allow_empty: false,
        allow_empty_message: false,
        keep_redundant_commits: false,
        mainline: None,
        strategy: None,
        strategy_option: Seq::empty(),
        rerere_autoupdate: false,
        no_rerere_autoupdate: false,
        empty: None,
        cleanup: None,
    }
}

/// The values that the `opts` file holds for `a` are single lines without whitespace at
/// their ends.
pub open spec fn opts_values_plain(a: Args) -> bool {
    &&& (a.strategy matches Some(x) ==> plain_value(x@))
    &&& forall|i: int| 0 <= i < a.strategy_option.len() ==> plain_value(#[trigger] a.strategy_option@[i]@)
    &&& (a.empty matches Some(x) ==> plain_value(x@))
    &&& (a.cleanup matches Some(x) ==> plain_value(x@))
}

/// The options that reading back the `opts` file written for `a` gives: all of them, except
/// that `--no-commit` is not written, `keep-redundant-commits` brings `allow-empty` with it,
/// and of `--rerere-autoupdate` and `--no-rerere-autoupdate` only the first is kept.
pub open spec fn opts_restored(a: Args) -> OptsState {
    OptsState {
        no_commit: false,
        allow_empty: a.allow_empty || a.keep_redundant_commits,
        no_rerere_autoupdate: a.no_rerere_autoupdate && !a.rerere_autoupdate,
        ..opts_state(a)
    }
}

/// The lines of the `opts` file after its header, one per option, as `sequencer_opts` writes
/// them.
pub open spec fn opts_pieces(a: Args) -> Seq<Seq<char>> {
    seq![
        line_if(a.signoff, opt_line("signoff"@, "true"@)),
        line_if(a.append_source, opt_line("record-origin"@, "true"@)),
        match a.mainline {
            Some(m) => opt_line("mainline"@, nat_text(m as nat)),
            None => Seq::empty(),
        },
        opt_value_line("strategy"@, a.strategy),
        strategy_option_lines(views(a.strategy_option@)),
        if a.rerere_autoupdate {
            opt_line("allow-rerere-auto"@, "true"@)
        } else if a.no_rerere_autoupdate {
            opt_line("allow-rerere-auto"@, "false"@)
        } else {
            Seq::empty()
        },
        line_if(a.edit, opt_line("edit"@, "true"@)),
        line_if(a.allow_empty, opt_line("allow-empty"@, "true"@)),
        line_if(a.allow_empty_message, opt_line("allow-empty-message"@, "true"@)),
        line_if(a.keep_redundant_commits, opt_line("keep-redundant-commits"@, "true"@)),
        opt_value_line("empty"@, a.empty),
        opt_value_line("cleanup"@, a.cleanup),
    ]
}

/// The header followed by the first `k` pieces.
pub open spec fn opts_prefix(a: Args, k: int) -> Seq<char>
    decreases k,
{
    if k <= 0 {
        "[options]\n"@
    } else {
        opts_prefix(a, k - 1) + opts_pieces(a)[k - 1]
    }
}

/// The options once the first `k` pieces are read into unset options.
pub open spec fn opts_stage(a: Args, k: int) -> OptsState {
    OptsState {
        signoff: k >= 1 && a.signoff,
        append_source: k >= 2 && a.append_source,
        no_commit: false,
        mainline: if k >= 3 { a.mainline } else { None },
        strategy: if k >= 4 { opt_view(a.strategy) } else { None },
        strategy_option: if k >= 5 { views(a.strategy_option@) } else { Seq::empty() },
        rerere_autoupdate: k >= 6 && a.rerere_autoupdate,
        no_rerere_autoupdate: k >= 6 && a.no_rerere_autoupdate && !a.rerere_autoupdate,
        edit: k >= 7 && a.edit,
        allow_empty: (k >= 8 && a.allow_empty) || (k >= 10 && a.keep_redundant_commits),
        allow_empty_message: k >= 9 && a.allow_empty_message,
        keep_redundant_commits: k >= 10 && a.keep_redundant_commits,
        empty: if k >= 11 { opt_view(a.empty) } else { None },
        cleanup: if k >= 12 { opt_view(a.cleanup) } else { None },
    }
}

/// Reading piece `k` (counted from 1) turns stage `k - 1` into stage `k`.
#[verifier::spinoff_prover]
proof fn lemma_piece_read(a: Args, k: int)
    requires
        opts_values_plain(a),
        1 <= k <= 12,
    ensures
        crate::text::nl_terminated(opts_pieces(a)[k - 1]),
        opts_read(opts_pieces(a)[k - 1], opts_stage(a, k - 1)) == opts_stage(a, k),
{
    lemma_keys_plain();
    let st = opts_stage(a, k - 1);
    let t = "true"@;
    if k == 1 {
        lemma_flag_line_read(a.signoff, "signoff"@, st);
        lemma_apply_written_keys(t, st);
    } else if k == 2 {
        lemma_flag_line_read(a.append_source, "record-origin"@, st);
        lemma_apply_written_keys(t, st);
    } else if k == 3 {
        match a.mainline {
            Some(m) => {
                lemma_mainline_read(m, st);
                lemma_opt_line_read("mainline"@, nat_text(m as nat), st);
            },
            None => {
                assert(lines(Seq::<char>::empty()) =~= Seq::<Seq<char>>::empty());
            },
        }
    } else if k == 4 {
        lemma_opt_value_line_read("strategy"@, a.strategy, st);
        if let Some(x) = a.strategy {
            lemma_apply_written_keys(x@, st);
        }
    } else if k == 5 {
        let xs = views(a.strategy_option@);
        assert forall|i: int| 0 <= i < xs.len() implies plain_value(#[trigger] xs[i]) by {
            assert(xs[i] == a.strategy_option@[i]@);
        }
        lemma_strategy_option_lines_read(xs, st);
        assert(st.strategy_option + xs =~= xs);
    } else if k == 6 {
        lemma_opt_line_read("allow-rerere-auto"@, "true"@, st);
        lemma_opt_line_read("allow-rerere-auto"@, "false"@, st);
        lemma_apply_written_keys(t, st);
        if !a.rerere_autoupdate && !a.no_rerere_autoupdate {
            assert(lines(Seq::<char>::empty()) =~= Seq::<Seq<char>>::empty());
        }
    } else if k == 7 {
        lemma_flag_line_read(a.edit, "edit"@, st);
        lemma_apply_written_keys(t, st);
    } else if k == 8 {
        lemma_flag_line_read(a.allow_empty, "allow-empty"@, st);
        lemma_apply_written_keys(t, st);
    } else if k == 9 {
        lemma_flag_line_read(a.allow_empty_message, "allow-empty-message"@, st);
        lemma_apply_written_keys(t, st);
    } else if k == 10 {
        lemma_flag_line_read(a.keep_redundant_commits, "keep-redundant-commits"@, st);
        lemma_apply_written_keys(t, st);
    } else if k == 11 {
        lemma_opt_value_line_read("empty"@, a.empty, st);
        if let Some(x) = a.empty {
            lemma_apply_written_keys(x@, st);
        }
    } else {
        lemma_opt_value_line_read("cleanup"@, a.cleanup, st);
        if let Some(x) = a.cleanup {
            lemma_apply_written_keys(x@, st);
        }
    }
}

/// Reading the header and the first `k` pieces gives stage `k`.
proof fn lemma_prefix_read(a: Args, k: int)
    requires
        opts_values_plain(a),
        0 <= k <= 12,
    ensures
        crate::text::nl_terminated(opts_prefix(a, k)),
        opts_read(opts_prefix(a, k), unset_opts()) == opts_stage(a, k),
    decreases k,
{
    if k == 0 {
        lemma_header_read(unset_opts());
        assert(opts_stage(a, 0) =~= unset_opts());
    } else {
        lemma_prefix_read(a, k - 1);
        lemma_piece_read(a, k);
        lemma_opts_read_concat(opts_prefix(a, k - 1), opts_pieces(a)[k - 1], unset_opts());
    }
}

/// Reading back the sequencer's `opts` file restores the options of the pick that wrote it
/// (as `opts_restored` says), when its values are single lines without whitespace at their
/// ends.
#[verifier::spinoff_prover]
#[verifier::rlimit(40)]
pub proof fn law_sequencer_opts_roundtrip(a: Args)
    requires
        opts_values_plain(a),
    ensures
        opts_read(sequencer_opts(a), unset_opts()) == opts_restored(a),
{
    lemma_prefix_read(a, 12);
    assert(opts_prefix(a, 12) == sequencer_opts(a)) by {
        reveal_with_fuel(opts_prefix, 13);
    }
    assert(opts_stage(a, 12) =~= opts_restored(a));
}

pub proof fn lemma_rfind_upto_exact(s: Seq<char>, p: Seq<char>, i: int, k: int)
    requires
        0 <= k <= i,
        crate::text::occurs_at(s, p, k),
        forall|j: int| k < j <= i ==> !crate::text::occurs_at(s, p, j),
    ensures
        crate::text::rfind_upto(s, p, i) == Some(k),
    decreases i - k,
{
    if i > k {
        lemma_rfind_upto_exact(s, p, i - 1, k);
    }
}

/// Parsing the message that a checkout from `f` to `t` writes gives back `f` and `t`, when
/// `t` (a branch name or commit) holds no space.
pub proof fn law_checkout_move_roundtrip(f: Seq<char>, t: Seq<char>)
    requires
        !t.contains(' '),
    ensures
        checkout_move("checkout: moving from "@ + f + " to "@ + t) == Some((f, t)),
{
    let p = "checkout: moving from "@;
    let sep = " to "@;
    reveal_strlit(" to ");
    let m = p + f + sep + t;
    assert(m.subrange(0, p.len() as int) =~= p);
    let rest = m.subrange(p.len() as int, m.len() as int);
    assert(rest =~= f + sep + t);
    let k = f.len() as int;
    assert(rest.subrange(k, k + 4) =~= sep);
    assert forall|j: int| k < j <= rest.len() - sep.len() implies !crate::text::occurs_at(rest, sep, j) by {
        if crate::text::occurs_at(rest, sep, j) {
            assert(rest.subrange(j, j + 4)[3] == ' ');
            assert(rest[j + 3] == ' ');
            assert(t[j + 3 - k - 4] == rest[j + 3]);
            assert(t.contains(' '));
        }
    }
    lemma_rfind_upto_exact(rest, sep, rest.len() - sep.len(), k);
    assert(rest.take(k) =~= f);
    assert(rest.subrange(k + 4, rest.len() as int) =~= t);
}

} // verus!
