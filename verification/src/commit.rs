//! `commit`: option post-processing, message-source decisions and identity parsing.
use vstd::prelude::*;
use vstd::string::StringSliceAdditionalSpecFns;
use crate::message::{drop_leading, has_lead, vertical_lead, CommitMsgCleanupMode};
use crate::text::{
    all_chars, char_is_ws, chars_of, eq_lit, find, find_at, has_prefix, int_text, is_alpha,
    lemma_find_from_props, lower, lowercase_range, occurs_at, parse_i64, push_range, starts_with,
    string_all, trim, trim_bounds, has_tok_prefix, join, push_all, is_tok, is_tok_chars, lemma_views_push, string_of, tok, tok_prefix, views,
};

verus! {

/// Arguments for `commit` (the option parser's result).
pub struct Args {
    /// `-m` / `--message`: the commit message, one paragraph per value.
    pub message: Vec<String>,
    /// The raw bytes of the `-m` / `--message` values, before UTF-8 conversion.
    pub raw_messages: Vec<Vec<u8>>,
    /// `-F` / `--file`: take the message from a file.
    pub file: Option<String>,
    /// `-a` / `--all`: stage all changed tracked files first.
    pub all: bool,
    /// `--amend`: replace the tip of the current branch.
    pub amend: bool,
    /// `--allow-empty`.
    pub allow_empty: bool,
    /// `--allow-empty-message`.
    pub allow_empty_message: bool,
    /// `--dry-run`.
    pub dry_run: bool,
    /// `-q` / `--quiet`.
    pub quiet: bool,
    /// `-s` / `--signoff`.
    pub signoff: bool,
    /// `-C` / `--reuse-message`.
    pub reuse_message: Option<String>,
    /// `-c` / `--reedit-message`.
    pub reedit_message: Option<String>,
    /// `--author`.
    pub author: Option<String>,
    /// The raw bytes of the `--author` value, before UTF-8 conversion.
    pub raw_author: Option<Vec<u8>>,
    /// `--date`.
    pub date: Option<String>,
    /// `--no-post-rewrite`.
    pub no_post_rewrite: bool,
    /// `--short` (dry run).
    pub short: bool,
    /// `--porcelain` (dry run).
    pub porcelain: bool,
    /// `--long` (dry run).
    pub long: bool,
    /// `--ahead-behind`.
    pub ahead_behind: bool,
    /// `--no-ahead-behind`.
    pub no_ahead_behind: bool,
    /// `-i` / `--include`.
    pub include_paths: bool,
    /// `-o` / `--only`.
    pub only: bool,
    /// `--interactive`.
    pub interactive: bool,
    /// `-p` / `--patch`.
    pub patch: bool,
    /// `-U` / `--unified`.
    pub unified: Option<i32>,
    /// `--inter-hunk-context`.
    pub inter_hunk_context: Option<i32>,
    /// `--no-auto-advance`.
    pub no_auto_advance: bool,
    /// `-u` / `--untracked-files`.
    pub untracked_files: Option<String>,
    /// `-v` / `--verbose`, counted.
    pub verbose: u8,
    /// `--cleanup`.
    pub cleanup: Option<String>,
    /// `-t` / `--template`.
    pub template: Option<String>,
    /// `-e` / `--edit`.
    pub edit: bool,
    /// `--no-edit`.
    pub no_edit: bool,
    /// `--status`.
    pub status: bool,
    /// `--no-status`.
    pub no_status: bool,
    /// `--trailer`.
    pub trailer: Vec<String>,
    /// `-S` / `--gpg-sign`.
    pub gpg_sign: Option<String>,
    /// `--no-gpg-sign`.
    pub no_gpg_sign: bool,
    /// `-n` / `--no-verify`.
    pub bypass_hooks: bool,
    /// `--fixup`.
    pub fixup: Option<String>,
    /// `--squash`.
    pub squash: Option<String>,
    /// `--reset-author`.
    pub reset_author: bool,
    /// `--pathspec-from-file`.
    pub pathspec_from_file: Option<String>,
    /// `--pathspec-file-nul`.
    pub pathspec_file_nul: bool,
    /// Pathspec: files to include in the commit.
    pub pathspec: Vec<String>,
}

pub open spec fn opt_view(o: Option<String>) -> Option<Seq<char>> {
    match o {
        Some(s) => Some(s@),
        None => None,
    }
}

/// What peeling options out of the pathspec can change, as plain values.
#[verifier::ext_equal]
pub struct PeelState {
    pub message: Seq<Seq<char>>,
    pub file: Option<Seq<char>>,
    pub edit: bool,
    pub no_edit: bool,
    pub all: bool,
    pub include_paths: bool,
    pub only: bool,
    pub allow_empty: bool,
    pub allow_empty_message: bool,
    pub amend: bool,
    pub author: Option<Seq<char>>,
    pub date: Option<Seq<char>>,
    pub rest: Seq<Seq<char>>,
}

/// The fields of `args` that peeling can change, with `rest` as what is left of the pathspec.
pub open spec fn peel_state(args: Args, rest: Seq<Seq<char>>) -> PeelState {
    PeelState {
        message: views(args.message@),
        file: opt_view(args.file),
        edit: args.edit,
        no_edit: args.no_edit,
        all: args.all,
        include_paths: args.include_paths,
        only: args.only,
        allow_empty: args.allow_empty,
        allow_empty_message: args.allow_empty_message,
        amend: args.amend,
        author: opt_view(args.author),
        date: opt_view(args.date),
        rest,
    }
}

/// `b` agrees with `a` on every field that peeling leaves alone.
pub open spec fn same_unpeeled(a: Args, b: Args) -> bool {
    &&& a.raw_messages == b.raw_messages
    &&& a.dry_run == b.dry_run
    &&& a.quiet == b.quiet
    &&& a.signoff == b.signoff
    &&& a.reuse_message == b.reuse_message
    &&& a.reedit_message == b.reedit_message
    &&& a.raw_author == b.raw_author
    &&& a.no_post_rewrite == b.no_post_rewrite
    &&& a.short == b.short
    &&& a.porcelain == b.porcelain
    &&& a.long == b.long
    &&& a.ahead_behind == b.ahead_behind
    &&& a.no_ahead_behind == b.no_ahead_behind
    &&& a.interactive == b.interactive
    &&& a.patch == b.patch
    &&& a.unified == b.unified
    &&& a.inter_hunk_context == b.inter_hunk_context
    &&& a.no_auto_advance == b.no_auto_advance
    &&& a.untracked_files == b.untracked_files
    &&& a.verbose == b.verbose
    &&& a.cleanup == b.cleanup
    &&& a.template == b.template
    &&& a.status == b.status
    &&& a.no_status == b.no_status
    &&& a.trailer == b.trailer
    &&& a.gpg_sign == b.gpg_sign
    &&& a.no_gpg_sign == b.no_gpg_sign
    &&& a.bypass_hooks == b.bypass_hooks
    &&& a.fixup == b.fixup
    &&& a.squash == b.squash
    &&& a.reset_author == b.reset_author
    &&& a.pathspec_from_file == b.pathspec_from_file
    &&& a.pathspec_file_nul == b.pathspec_file_nul
}

/// The long form of `-i`, spelled out by character.
pub open spec fn long_stage_paths() -> Seq<char> {
    seq!['-', '-', 'i', 'n', 'c', 'l', 'u', 'd', 'e']
}

fn long_stage_paths_chars() -> (v: Vec<char>)
    ensures
        v@ == long_stage_paths(),
{
    let v = vec!['-', '-', 'i', 'n', 'c', 'l', 'u', 'd', 'e'];
    assert(v@ =~= long_stage_paths());
    v
}

pub open spec fn with_message(st: PeelState, m: Seq<char>) -> PeelState {
    PeelState { message: st.message.push(m), ..st }
}

pub open spec fn with_file(st: PeelState, f: Seq<char>) -> PeelState {
    PeelState { file: Some(f), ..st }
}

/// The effect of `ps[i]` when it is `-m` or `-F` in one of their forms: the index of the next
/// token and the new state.
pub open spec fn peel_value_step(ps: Seq<Seq<char>>, i: int, st: PeelState) -> Option<(int, PeelState)> {
    let a = ps[i];
    let has_next = i < ps.len() - 1;
    if tok(a, "-m"@) || tok(a, "--message"@) {
        Some(
            if has_next {
                (i + 2, with_message(st, ps[i + 1]))
            } else {
                (i + 1, st)
            },
        )
    } else if tok_prefix(a, "--message="@) {
        let v = a.subrange("--message="@.len() as int, a.len() as int);
        Some((i + 1, if v.len() > 0 { with_message(st, v) } else { st }))
    } else if tok(a, "-F"@) || tok(a, "--file"@) {
        Some(
            if has_next {
                (i + 2, if st.file is None { with_file(st, ps[i + 1]) } else { st })
            } else {
                (i + 1, st)
            },
        )
    } else if tok_prefix(a, "--file="@) {
        let v = a.subrange("--file="@.len() as int, a.len() as int);
        Some((i + 1, if v.len() > 0 && st.file is None { with_file(st, v) } else { st }))
    } else if a.len() > 2 && tok_prefix(a, "-m"@) && !tok_prefix(a, "--"@) {
        Some((i + 1, with_message(st, a.subrange(2, a.len() as int))))
    } else if a.len() > 2 && tok_prefix(a, "-F"@) && !tok_prefix(a, "--"@) && st.file is None {
        Some((i + 1, with_file(st, a.subrange(2, a.len() as int))))
    } else {
        None
    }
}

/// The effect of `ps[i]` when it is one of the switches that may follow paths.
#[verifier::opaque]
pub open spec fn peel_switch_step(a: Seq<char>, st: PeelState) -> Option<PeelState> {
    if tok(a, "-e"@) || tok(a, "--edit"@) {
        Some(PeelState { edit: true, ..st })
    } else if tok(a, "--no-edit"@) {
        Some(PeelState { no_edit: true, ..st })
    } else if tok(a, "-a"@) || tok(a, "--all"@) {
        Some(PeelState { all: true, ..st })
    } else if tok(a, "-i"@) || tok(a, long_stage_paths()) {
        Some(PeelState { include_paths: true, ..st })
    } else if tok(a, "-o"@) || tok(a, "--only"@) {
        Some(PeelState { only: true, ..st })
    } else if tok(a, "--allow-empty"@) {
        Some(PeelState { allow_empty: true, ..st })
    } else if tok(a, "--allow-empty-message"@) {
        Some(PeelState { allow_empty_message: true, ..st })
    } else if tok(a, "--amend"@) {
        Some(PeelState { amend: true, ..st })
    } else {
        None
    }
}

/// The effect of any other token `ps[i]`: `--author`, `--date`, or a path.
#[verifier::opaque]
pub open spec fn peel_other_step(ps: Seq<Seq<char>>, i: int, st: PeelState) -> (int, PeelState) {
    let a = ps[i];
    let has_next = i + 1 < ps.len();
    if tok(a, "--author"@) {
        if has_next {
            (i + 2, PeelState { author: Some(ps[i + 1]), ..st })
        } else {
            (i + 1, st)
        }
    } else if tok(a, "--date"@) {
        if has_next {
            (i + 2, PeelState { date: Some(ps[i + 1]), ..st })
        } else {
            (i + 1, st)
        }
    } else if tok_prefix(a, "--author="@) {
        (i + 1, PeelState { author: Some(a.subrange("--author="@.len() as int, a.len() as int)), ..st })
    } else if tok_prefix(a, "--date="@) {
        (i + 1, PeelState { date: Some(a.subrange("--date="@.len() as int, a.len() as int)), ..st })
    } else {
        (i + 1, PeelState { rest: st.rest.push(a), ..st })
    }
}

/// The effect of the token `ps[i]` (and of the value after it, for options that take one).
pub open spec fn peel_step(ps: Seq<Seq<char>>, i: int, st: PeelState) -> (int, PeelState) {
    match peel_value_step(ps, i, st) {
        Some(r) => r,
        None => match peel_switch_step(ps[i], st) {
            Some(next) => (i + 1, next),
            None => peel_other_step(ps, i, st),
        },
    }
}

/// Peeling the tokens of `ps` from index `i` on.
pub open spec fn peel_scan(ps: Seq<Seq<char>>, i: int, st: PeelState) -> PeelState
    decreases ps.len() - i,
{
    if i < 0 || i >= ps.len() {
        st
    } else {
        let r = peel_step(ps, i, st);
        if r.0 <= i || r.0 > ps.len() {
            r.1
        } else {
            peel_scan(ps, r.0, r.1)
        }
    }
}

/// The options that peeling gathers, while it runs.
struct Peeled {
    message: Vec<String>,
    file: Option<String>,
    edit: bool,
    no_edit: bool,
    all: bool,
    include_paths: bool,
    only: bool,
    allow_empty: bool,
    allow_empty_message: bool,
    amend: bool,
    author: Option<String>,
    date: Option<String>,
    rest: Vec<String>,
}

spec fn peeled_view(p: Peeled) -> PeelState {
    PeelState {
        message: views(p.message@),
        file: opt_view(p.file),
        edit: p.edit,
        no_edit: p.no_edit,
        all: p.all,
        include_paths: p.include_paths,
        only: p.only,
        allow_empty: p.allow_empty,
        allow_empty_message: p.allow_empty_message,
        amend: p.amend,
        author: opt_view(p.author),
        date: opt_view(p.date),
        rest: views(p.rest@),
    }
}

/// Applies `ps[i]` to `p` when it is `-m` or `-F` in one of their forms, and returns the index
/// of the next token; leaves `p` alone and returns `None` otherwise.
fn peel_value_token(p: &mut Peeled, ps: &Vec<String>, i: usize) -> (r: Option<usize>)
    requires
        i < ps@.len(),
    ensures
        match r {
            Some(n) => i < n <= ps@.len() && peel_value_step(views(ps@), i as int, peeled_view(*old(p))) == Some(
                (n as int, peeled_view(*final(p))),
            ),
            None => peel_value_step(views(ps@), i as int, peeled_view(*old(p))) is None && *final(p)
                == *old(p),
        },
{
    reveal(peel_value_step);
    let a = chars_of(ps[i].as_str());
    proof {
        reveal_strlit("-m");
        reveal_strlit("-F");
    }
    let ghost psv = views(ps@);
    assert(a@ == psv[i as int]);
    let has_next = i < ps.len() - 1;
    if is_tok(&a, "-m") || is_tok(&a, "--message") {
        if has_next {
            let ghost prev = p.message@;
            let v = ps[i + 1].clone();
            p.message.push(v);
            proof {
                lemma_views_push(prev, v);
            }
            assert(peeled_view(*p) =~= with_message(peeled_view(*old(p)), psv[i + 1]));
            Some(i + 2)
        } else {
            Some(i + 1)
        }
    } else if has_tok_prefix(&a, "--message=") {
        let k = chars_of("--message=").len();
        if k < a.len() {
            let ghost prev = p.message@;
            let v = string_of(&a, k, a.len());
            p.message.push(v);
            proof {
                lemma_views_push(prev, v);
            }
            assert(peeled_view(*p) =~= with_message(peeled_view(*old(p)), v@));
        }
        Some(i + 1)
    } else if is_tok(&a, "-F") || is_tok(&a, "--file") {
        if has_next {
            if p.file.is_none() {
                p.file = Some(ps[i + 1].clone());
            }
            Some(i + 2)
        } else {
            Some(i + 1)
        }
    } else if has_tok_prefix(&a, "--file=") {
        let k = chars_of("--file=").len();
        if k < a.len() && p.file.is_none() {
            p.file = Some(string_of(&a, k, a.len()));
        }
        Some(i + 1)
    } else if a.len() > 2 && has_tok_prefix(&a, "-m") && !has_tok_prefix(&a, "--") {
        let ghost prev = p.message@;
        let v = string_of(&a, 2, a.len());
        p.message.push(v);
        proof {
            lemma_views_push(prev, v);
        }
        assert(peeled_view(*p) =~= with_message(peeled_view(*old(p)), v@));
        Some(i + 1)
    } else if a.len() > 2 && has_tok_prefix(&a, "-F") && !has_tok_prefix(&a, "--") && p.file.is_none() {
        p.file = Some(string_of(&a, 2, a.len()));
        Some(i + 1)
    } else {
        None
    }
}

/// Applies `a` to `p` when it is one of the switches that may follow paths, and tells whether
/// it was one.
fn peel_switch_token(p: &mut Peeled, a: &Vec<char>) -> (r: bool)
    ensures
        match peel_switch_step(a@, peeled_view(*old(p))) {
            Some(next) => r && next == peeled_view(*final(p)),
            None => !r && *final(p) == *old(p),
        },
{
    reveal(peel_switch_step);
    if is_tok(a, "-e") || is_tok(a, "--edit") {
        p.edit = true;
    } else if is_tok(a, "--no-edit") {
        p.no_edit = true;
    } else if is_tok(a, "-a") || is_tok(a, "--all") {
        p.all = true;
    } else if is_tok(a, "-i") || is_tok_chars(a, &long_stage_paths_chars()) {
        p.include_paths = true;
    } else if is_tok(a, "-o") || is_tok(a, "--only") {
        p.only = true;
    } else if is_tok(a, "--allow-empty") {
        p.allow_empty = true;
    } else if is_tok(a, "--allow-empty-message") {
        p.allow_empty_message = true;
    } else if is_tok(a, "--amend") {
        p.amend = true;
    } else {
        return false;
    }
    true
}

/// Applies `ps[i]` to `p` when it is `--author` or `--date`, or keeps it as a path, and
/// returns the index of the next token.
fn peel_other_token(p: &mut Peeled, ps: &Vec<String>, i: usize) -> (n: usize)
    requires
        i < ps@.len(),
    ensures
        i < n <= ps@.len(),
        peel_other_step(views(ps@), i as int, peeled_view(*old(p))) == (n as int, peeled_view(*final(p))),
{
    reveal(peel_other_step);
    let a = chars_of(ps[i].as_str());
    let ghost psv = views(ps@);
    assert(a@ == psv[i as int]);
    let has_next = i < ps.len() - 1;
    let ghost st = peeled_view(*old(p));
    if is_tok(&a, "--author") {
        if has_next {
            p.author = Some(ps[i + 1].clone());
            return i + 2;
        }
    } else if is_tok(&a, "--date") {
        if has_next {
            p.date = Some(ps[i + 1].clone());
            return i + 2;
        }
    } else if has_tok_prefix(&a, "--author=") {
        let k = chars_of("--author=").len();
        p.author = Some(string_of(&a, k, a.len()));
    } else if has_tok_prefix(&a, "--date=") {
        let k = chars_of("--date=").len();
        p.date = Some(string_of(&a, k, a.len()));
    } else {
        let ghost prev = p.rest@;
        let v = ps[i].clone();
        p.rest.push(v);
        proof {
            lemma_views_push(prev, v);
        }
        assert(peeled_view(*p) =~= PeelState { rest: st.rest.push(a@), ..st });
    }
    i + 1
}

/// Moves the fields that peeling can change out of `args`.
#[verifier::spinoff_prover]
fn take_peelable(args: &mut Args) -> (p: Peeled)
    ensures
        peeled_view(p) =~= peel_state(*old(args), Seq::empty()),
        same_unpeeled(*old(args), *final(args)),
{
    let mut message: Vec<String> = Vec::new();
    std::mem::swap(&mut message, &mut args.message);
    let mut file: Option<String> = None;
    std::mem::swap(&mut file, &mut args.file);
    let mut author: Option<String> = None;
    std::mem::swap(&mut author, &mut args.author);
    let mut date: Option<String> = None;
    std::mem::swap(&mut date, &mut args.date);
    Peeled {
        message,
        file,
        edit: args.edit,
        no_edit: args.no_edit,
        all: args.all,
        include_paths: args.include_paths,
        only: args.only,
        allow_empty: args.allow_empty,
        allow_empty_message: args.allow_empty_message,
        amend: args.amend,
        author,
        date,
        rest: Vec::new(),
    }
}

/// Writes what peeling gathered back into `args`, with what is left as the pathspec.
#[verifier::spinoff_prover]
#[verifier::rlimit(40)]
fn store_peeled(args: &mut Args, p: Peeled)
    ensures
        peel_state(*final(args), views(final(args).pathspec@)) =~= peeled_view(p),
        same_unpeeled(*old(args), *final(args)),
{
    args.message = p.message;
    args.file = p.file;
    args.edit = p.edit;
    args.no_edit = p.no_edit;
    args.all = p.all;
    args.include_paths = p.include_paths;
    args.only = p.only;
    args.allow_empty = p.allow_empty;
    args.allow_empty_message = p.allow_empty_message;
    args.amend = p.amend;
    args.author = p.author;
    args.date = p.date;
    args.pathspec = p.rest;
}

/// Splits `-m` / `-F` (also in their `=` and glued forms) and the other commit options that may
/// follow paths out of the pathspec, as `git commit <path> -m <msg>` allows. Options are
/// applied in order; `-F` keeps the first file given; what is left stays the pathspec.
pub fn peel_message_flags_from_pathspec(args: &mut Args)
    ensures
        peel_state(*final(args), views(final(args).pathspec@)) =~= peel_scan(
            views(old(args).pathspec@),
            0,
            peel_state(*old(args), Seq::empty()),
        ),
        same_unpeeled(*old(args), *final(args)),
{
    let mut ps: Vec<String> = Vec::new();
    std::mem::swap(&mut ps, &mut args.pathspec);
    let mut p = take_peelable(args);
    let ghost psv = views(ps@);
    let ghost target = peel_scan(psv, 0, peel_state(*old(args), Seq::empty()));
    assert(peeled_view(p) =~= peel_state(*old(args), Seq::empty()));
    let mut i: usize = 0;
    while i < ps.len()
        invariant
            i <= ps@.len(),
            psv == views(ps@),
            peel_scan(psv, i as int, peeled_view(p)) =~= target,
        decreases ps@.len() - i,
    {
        let ghost before = peeled_view(p);
        match peel_value_token(&mut p, &ps, i) {
            Some(n) => {
                i = n;
            },
            None => {
                let a = chars_of(ps[i].as_str());
                assert(a@ == psv[i as int]);
                if peel_switch_token(&mut p, &a) {
                    i = i + 1;
                } else {
                    i = peel_other_token(&mut p, &ps, i);
                }
            },
        }
    }
    store_peeled(args, p);
}

/// A token that peeling keeps in the pathspec in state `st`: no option that it knows, whatever
/// follows it.
pub open spec fn kept_token(t: Seq<char>, st: PeelState) -> bool {
    &&& peel_value_step(seq![t], 0, st) is None
    &&& peel_switch_step(t, st) is None
    &&& !tok(t, "--author"@)
    &&& !tok(t, "--date"@)
    &&& !tok_prefix(t, "--author="@)
    &&& !tok_prefix(t, "--date="@)
}

/// A kept token stays kept once a file has been given, if one had been before.
proof fn lemma_kept_token_mono(t: Seq<char>, st: PeelState, st2: PeelState)
    requires
        kept_token(t, st),
        st.file is Some ==> st2.file is Some,
    ensures
        kept_token(t, st2),
{
    reveal(peel_switch_step);
}

/// Peeling a kept token adds it to what is left of the pathspec and changes nothing else.
proof fn lemma_kept_token_step(ps: Seq<Seq<char>>, i: int, st: PeelState)
    requires
        0 <= i < ps.len(),
        kept_token(ps[i], st),
    ensures
        peel_step(ps, i, st) == (i + 1, PeelState { rest: st.rest.push(ps[i]), ..st }),
{
    reveal(peel_other_step);
    assert(seq![ps[i]][0] == ps[i]);
    assert(peel_value_step(ps, i, st) is None);
}

/// One peeling step keeps what is left so far, or adds its token there as a kept token; a
/// file, once given, stays given.
proof fn lemma_step_rest(ps: Seq<Seq<char>>, i: int, st: PeelState)
    requires
        0 <= i < ps.len(),
    ensures
        st.file is Some ==> peel_step(ps, i, st).1.file is Some,
        peel_step(ps, i, st).1.rest == st.rest || (peel_step(ps, i, st).1.rest == st.rest.push(ps[i])
            && kept_token(ps[i], st)),
{
    reveal(peel_switch_step);
    reveal(peel_other_step);
    assert(seq![ps[i]][0] == ps[i]);
    if peel_value_step(ps, i, st) is None {
        assert(peel_value_step(seq![ps[i]], 0, st) is None);
    }
}

/// What is left after peeling from `i` extends what was left before, and every token added
/// is kept in the final state.
proof fn lemma_peel_rest(ps: Seq<Seq<char>>, i: int, st: PeelState)
    requires
        0 <= i,
    ensures
        st.file is Some ==> peel_scan(ps, i, st).file is Some,
        peel_scan(ps, i, st).rest.len() >= st.rest.len(),
        peel_scan(ps, i, st).rest.take(st.rest.len() as int) == st.rest,
        forall|k: int|
            st.rest.len() <= k < peel_scan(ps, i, st).rest.len() ==> kept_token(
                #[trigger] peel_scan(ps, i, st).rest[k],
                peel_scan(ps, i, st),
            ),
    decreases ps.len() - i,
{
    let s1 = peel_scan(ps, i, st);
    if i >= ps.len() {
        assert(st.rest.take(st.rest.len() as int) =~= st.rest);
    } else {
        let r = peel_step(ps, i, st);
        lemma_step_rest(ps, i, st);
        if r.0 <= i || r.0 > ps.len() {
            assert(s1 == r.1);
            if r.1.rest == st.rest {
                assert(st.rest.take(st.rest.len() as int) =~= st.rest);
            } else {
                assert(r.1.rest.take(st.rest.len() as int) =~= st.rest);
                lemma_kept_token_mono(ps[i], st, s1);
            }
        } else {
            lemma_peel_rest(ps, r.0, r.1);
            assert(s1 == peel_scan(ps, r.0, r.1));
            assert(s1.rest.take(st.rest.len() as int) =~= r.1.rest.take(st.rest.len() as int)) by {
                assert(s1.rest.take(r.1.rest.len() as int) == r.1.rest);
            }
            if r.1.rest == st.rest {
            } else {
                assert(r.1.rest.take(st.rest.len() as int) =~= st.rest);
                lemma_kept_token_mono(ps[i], st, s1);
                assert(s1.rest[st.rest.len() as int] == s1.rest.take(r.1.rest.len() as int)[st.rest.len() as int]);
            }
        }
    }
}

/// Peeling tokens that are all kept leaves the state as it was and keeps them all.
proof fn lemma_peel_kept(xs: Seq<Seq<char>>, i: int, st: PeelState)
    requires
        0 <= i <= xs.len(),
        forall|k: int| i <= k < xs.len() ==> kept_token(#[trigger] xs[k], st),
    ensures
        peel_scan(xs, i, st) == (PeelState { rest: st.rest + xs.subrange(i, xs.len() as int), ..st }),
    decreases xs.len() - i,
{
    if i == xs.len() {
        assert(st.rest + xs.subrange(i, xs.len() as int) =~= st.rest);
    } else {
        lemma_kept_token_step(xs, i, st);
        let st2 = PeelState { rest: st.rest.push(xs[i]), ..st };
        assert forall|k: int| i + 1 <= k < xs.len() implies kept_token(#[trigger] xs[k], st2) by {
            lemma_kept_token_mono(xs[k], st, st2);
        }
        lemma_peel_kept(xs, i + 1, st2);
        assert(st2.rest + xs.subrange(i + 1, xs.len() as int) =~= st.rest + xs.subrange(i, xs.len() as int));
    }
}

/// Peeling is idempotent: peeling again what the first peeling left in the pathspec, with the
/// options it gathered, changes nothing.
pub proof fn law_peel_idempotent(ps: Seq<Seq<char>>, st: PeelState)
    requires
        st.rest == Seq::<Seq<char>>::empty(),
    ensures
        peel_scan(peel_scan(ps, 0, st).rest, 0, (PeelState { rest: Seq::empty(), ..peel_scan(ps, 0, st) }))
            == peel_scan(ps, 0, st),
{
    let s1 = peel_scan(ps, 0, st);
    lemma_peel_rest(ps, 0, st);
    let st2 = PeelState { rest: Seq::empty(), ..s1 };
    assert forall|k: int| 0 <= k < s1.rest.len() implies kept_token(#[trigger] s1.rest[k], st2) by {
        lemma_kept_token_mono(s1.rest[k], s1, st2);
    }
    lemma_peel_kept(s1.rest, 0, st2);
    assert(Seq::<Seq<char>>::empty() + s1.rest.subrange(0, s1.rest.len() as int) =~= s1.rest);
}

// ----- raw argument bytes --------------------------------------------------------------

/// The byte strings of a list of byte vectors.
pub open spec fn byte_views(v: Seq<Vec<u8>>) -> Seq<Seq<u8>> {
    v.map_values(|b: Vec<u8>| b@)
}

pub open spec fn opt_bytes(o: Option<Vec<u8>>) -> Option<Seq<u8>> {
    match o {
        Some(b) => Some(b@),
        None => None,
    }
}

/// The scan of raw argument bytes from index `i` for the `-m` / `--message` values and the
/// last `--author` value, given what was found so far.
pub open spec fn raw_scan(rest: Seq<Seq<u8>>, i: int, msgs: Seq<Seq<u8>>, author: Option<Seq<u8>>) -> (
    Seq<Seq<u8>>,
    Option<Seq<u8>>,
)
    decreases rest.len() + 1 - i,
{
    if i < 0 || i >= rest.len() {
        (msgs, author)
    } else {
        let a = rest[i];
        let has_next = i + 1 < rest.len();
        let author_eq = "--author=".spec_bytes();
        let message_eq = "--message=".spec_bytes();
        if a == "--author".spec_bytes() {
            raw_scan(rest, i + 2, msgs, if has_next { Some(rest[i + 1]) } else { author })
        } else if has_lead(a, author_eq) && a.len() > author_eq.len() {
            raw_scan(rest, i + 1, msgs, Some(a.subrange(author_eq.len() as int, a.len() as int)))
        } else if a == "-m".spec_bytes() || a == "--message".spec_bytes() {
            raw_scan(rest, i + 2, if has_next { msgs.push(rest[i + 1]) } else { msgs }, author)
        } else if has_lead(a, message_eq) && a.len() > message_eq.len() {
            raw_scan(rest, i + 1, msgs.push(a.subrange(message_eq.len() as int, a.len() as int)), author)
        } else if has_lead(a, "-m".spec_bytes()) && !has_lead(a, "--".spec_bytes()) && a.len()
            > "-m".spec_bytes().len() {
            raw_scan(rest, i + 1, msgs.push(a.subrange("-m".spec_bytes().len() as int, a.len() as int)), author)
        } else {
            raw_scan(rest, i + 1, msgs, author)
        }
    }
}

fn bytes_equal(a: &[u8], b: &[u8]) -> (r: bool)
    ensures
        r == (a@ == b@),
{
    if a.len() != b.len() {
        return false;
    }
    let mut k: usize = 0;
    while k < a.len()
        invariant
            a@.len() == b@.len(),
            k <= a@.len(),
            forall|j: int| 0 <= j < k ==> a@[j] == b@[j],
        decreases a@.len() - k,
    {
        if a[k] != b[k] {
            return false;
        }
        k = k + 1;
    }
    assert(a@ =~= b@);
    true
}

fn bytes_have_lead(a: &[u8], p: &[u8]) -> (r: bool)
    ensures
        r == has_lead(a@, p@),
{
    if p.len() > a.len() {
        return false;
    }
    let mut k: usize = 0;
    while k < p.len()
        invariant
            p@.len() <= a@.len(),
            k <= p@.len(),
            forall|j: int| 0 <= j < k ==> a@[j] == p@[j],
        decreases p@.len() - k,
    {
        if a[k] != p[k] {
            assert(a@.take(p@.len() as int)[k as int] != p@[k as int]);
            return false;
        }
        k = k + 1;
    }
    assert(a@.take(p@.len() as int) =~= p@);
    true
}

fn byte_tail(a: &[u8], k: usize) -> (r: Vec<u8>)
    requires
        k <= a@.len(),
    ensures
        r@ == a@.subrange(k as int, a@.len() as int),
{
    let mut r: Vec<u8> = Vec::new();
    let mut j = k;
    while j < a.len()
        invariant
            k <= j <= a@.len(),
            r@ == a@.subrange(k as int, j as int),
        decreases a@.len() - j,
    {
        r.push(a[j]);
        j = j + 1;
        assert(a@.subrange(k as int, j as int) =~= a@.subrange(k as int, j - 1).push(a@[j - 1]));
    }
    r
}

/// `p` is a prefix of `a`.
pub fn bytes_have_lead_pub(a: &[u8], p: &[u8]) -> (r: bool)
    ensures
        r == has_lead(a@, p@),
{
    bytes_have_lead(a, p)
}

/// The bytes after `prefix` in `arg`, when `arg` starts with `prefix` and has more after it.
pub fn strip_raw_prefix(arg: &[u8], prefix: &[u8]) -> (r: Option<Vec<u8>>)
    ensures
        match r {
            Some(v) => has_lead(arg@, prefix@) && arg@.len() > prefix@.len() && v@ == arg@.subrange(
                prefix@.len() as int,
                arg@.len() as int,
            ),
            None => !(has_lead(arg@, prefix@) && arg@.len() > prefix@.len()),
        },
{
    if bytes_have_lead(arg, prefix) && arg.len() > prefix.len() {
        Some(byte_tail(arg, prefix.len()))
    } else {
        None
    }
}

/// Scans raw argument bytes for the `-m` / `--message` values, in order, and the last
/// `--author` value.
pub fn scan_raw_commit_argv(raw_rest: &[Vec<u8>]) -> (r: (Vec<Vec<u8>>, Option<Vec<u8>>))
    ensures
        (byte_views(r.0@), opt_bytes(r.1)) == raw_scan(byte_views(raw_rest@), 0, Seq::empty(), None),
{
    let ghost rv = byte_views(raw_rest@);
    let author_lit = "--author".as_bytes();
    let author_eq = "--author=".as_bytes();
    let m_lit = "-m".as_bytes();
    let message_lit = "--message".as_bytes();
    let message_eq = "--message=".as_bytes();
    let dd = "--".as_bytes();
    let mut msgs: Vec<Vec<u8>> = Vec::new();
    let mut author: Option<Vec<u8>> = None;
    let mut i: usize = 0;
    assert(byte_views(msgs@) =~= Seq::<Seq<u8>>::empty());
    while i < raw_rest.len()
        invariant
            rv == byte_views(raw_rest@),
            author_lit@ == "--author".spec_bytes(),
            author_eq@ == "--author=".spec_bytes(),
            m_lit@ == "-m".spec_bytes(),
            message_lit@ == "--message".spec_bytes(),
            message_eq@ == "--message=".spec_bytes(),
            dd@ == "--".spec_bytes(),
            i <= raw_rest@.len(),
            raw_scan(rv, i as int, byte_views(msgs@), opt_bytes(author)) == raw_scan(rv, 0, Seq::empty(), None),
        decreases raw_rest@.len() - i,
    {
        let a = raw_rest[i].as_slice();
        assert(a@ == rv[i as int]);
        let has_next = i < raw_rest.len() - 1;
        if bytes_equal(a, author_lit) {
            if has_next {
                author = Some(raw_rest[i + 1].clone());
                assert(opt_bytes(author) == Some(rv[i + 1]));
                i = i + 2;
            } else {
                assert(raw_scan(rv, i + 2, byte_views(msgs@), opt_bytes(author)) == (byte_views(msgs@), opt_bytes(author)));
                i = raw_rest.len();
            }
        } else if bytes_have_lead(a, author_eq) && a.len() > author_eq.len() {
            author = Some(byte_tail(a, author_eq.len()));
            i = i + 1;
        } else if bytes_equal(a, m_lit) || bytes_equal(a, message_lit) {
            if has_next {
                let ghost prev = msgs@;
                let v = raw_rest[i + 1].clone();
                msgs.push(v);
                assert(byte_views(msgs@) =~= byte_views(prev).push(rv[i + 1]));
                i = i + 2;
            } else {
                assert(raw_scan(rv, i + 2, byte_views(msgs@), opt_bytes(author)) == (byte_views(msgs@), opt_bytes(author)));
                i = raw_rest.len();
            }
        } else if bytes_have_lead(a, message_eq) && a.len() > message_eq.len() {
            let ghost prev = msgs@;
            let v = byte_tail(a, message_eq.len());
            msgs.push(v);
            assert(byte_views(msgs@) =~= byte_views(prev).push(v@));
            i = i + 1;
        } else if bytes_have_lead(a, m_lit) && !bytes_have_lead(a, dd) && a.len() > m_lit.len() {
            let ghost prev = msgs@;
            let v = byte_tail(a, m_lit.len());
            msgs.push(v);
            assert(byte_views(msgs@) =~= byte_views(prev).push(v@));
            i = i + 1;
        } else {
            i = i + 1;
        }
    }
    (msgs, author)
}

fn set_raw_author(args: &mut Args, v: Option<Vec<u8>>)
    ensures
        *final(args) == (Args { raw_author: v, ..*old(args) }),
{
    args.raw_author = v;
}

fn set_raw_messages(args: &mut Args, v: Vec<Vec<u8>>)
    ensures
        *final(args) == (Args { raw_messages: v, ..*old(args) }),
{
    args.raw_messages = v;
}

/// Records the raw bytes of the `--author` value (when an author was given) and of the
/// `-m` / `--message` values (when there are as many as parsed messages), so that they can be
/// decoded with the configured commit encoding.
pub fn hydrate_raw_commit_argv_values(args: &mut Args, raw_rest: &[Vec<u8>])
    ensures
        ({
            let scan = raw_scan(byte_views(raw_rest@), 0, Seq::empty(), None);
            &&& opt_bytes(final(args).raw_author) == if old(args).author is Some {
                scan.1
            } else {
                opt_bytes(old(args).raw_author)
            }
            &&& byte_views(final(args).raw_messages@) == if scan.0.len() == old(args).message@.len() {
                scan.0
            } else {
                byte_views(old(args).raw_messages@)
            }
        }),
        *final(args) == (Args {
            raw_author: final(args).raw_author,
            raw_messages: final(args).raw_messages,
            ..*old(args)
        }),
{
    let (raw_messages, raw_author) = scan_raw_commit_argv(raw_rest);
    if args.author.is_some() {
        set_raw_author(args, raw_author);
    }
    if raw_messages.len() == args.message.len() {
        set_raw_messages(args, raw_messages);
    }
}

// ----- option checks made before the repository is opened ------------------------------

/// `pathspec` without its trailing `-q` / `--quiet` entries (they end up there when written
/// after `-m <msg>`).
pub open spec fn drop_quiet_tail(ps: Seq<Seq<char>>) -> Seq<Seq<char>>
    decreases ps.len(),
{
    if ps.len() > 0 && (ps.last() == "-q"@ || ps.last() == "--quiet"@) {
        drop_quiet_tail(ps.drop_last())
    } else {
        ps
    }
}

/// Removes the trailing `-q` / `--quiet` entries of `pathspec`.
pub fn drop_trailing_quiet_pathspecs(pathspec: &mut Vec<String>)
    ensures
        views(final(pathspec)@) == drop_quiet_tail(views(old(pathspec)@)),
{
    loop
        invariant
            drop_quiet_tail(views(pathspec@)) == drop_quiet_tail(views(old(pathspec)@)),
        ensures
            views(pathspec@) == drop_quiet_tail(views(old(pathspec)@)),
        decreases pathspec.len(),
    {
        let n = pathspec.len();
        if n == 0 {
            assert(views(pathspec@) == drop_quiet_tail(views(pathspec@)));
            break;
        }
        let last = pathspec[n - 1].as_str();
        let q = eq_str(last, "-q") || eq_str(last, "--quiet");
        assert(views(pathspec@).last() == pathspec@[n - 1]@);
        if !q {
            break;
        }
        let ghost before = views(pathspec@);
        pathspec.pop();
        assert(views(pathspec@) =~= before.drop_last());
    }
}

/// The two strings hold the same characters.
fn eq_str(a: &str, b: &str) -> (r: bool)
    ensures
        r == (a@ == b@),
{
    let v = chars_of(a);
    eq_lit(&v, b)
}

/// The first error among the checks of `--no-auto-advance` and `--pathspec-from-file`.
pub open spec fn early_option_error(a: Args) -> Option<Seq<char>> {
    if a.no_auto_advance && !a.patch {
        Some("the option '--no-auto-advance' requires '--interactive/--patch'"@)
    } else if a.pathspec_file_nul && a.pathspec_from_file is None {
        Some("fatal: the option '--pathspec-file-nul' requires '--pathspec-from-file'"@)
    } else if a.pathspec_from_file is Some && (a.interactive || a.patch) {
        Some("fatal: options '--pathspec-from-file' and '--interactive/--patch' cannot be used together"@)
    } else if a.pathspec_from_file is Some && a.all {
        Some("fatal: options '--pathspec-from-file' and '-a' cannot be used together"@)
    } else if a.pathspec_from_file is Some && a.pathspec.len() > 0 {
        Some("fatal: '--pathspec-from-file' and pathspec arguments cannot be used together"@)
    } else {
        None
    }
}

/// The first of the option errors that `commit` reports before it reads pathspecs from a
/// file.
pub fn commit_early_option_error(args: &Args) -> (r: Option<String>)
    ensures
        opt_view(r) == early_option_error(*args),
{
    if args.no_auto_advance && !args.patch {
        Some("the option '--no-auto-advance' requires '--interactive/--patch'".to_owned())
    } else if args.pathspec_file_nul && args.pathspec_from_file.is_none() {
        Some("fatal: the option '--pathspec-file-nul' requires '--pathspec-from-file'".to_owned())
    } else if args.pathspec_from_file.is_some() && (args.interactive || args.patch) {
        Some("fatal: options '--pathspec-from-file' and '--interactive/--patch' cannot be used together".to_owned())
    } else if args.pathspec_from_file.is_some() && args.all {
        Some("fatal: options '--pathspec-from-file' and '-a' cannot be used together".to_owned())
    } else if args.pathspec_from_file.is_some() && args.pathspec.len() > 0 {
        Some("fatal: '--pathspec-from-file' and pathspec arguments cannot be used together".to_owned())
    } else {
        None
    }
}

/// How many of `-m`, `-F`, `-C`, `-c` are given.
pub open spec fn message_source_count(a: Args) -> int {
    (if a.message.len() > 0 { 1int } else { 0int }) + (if a.file is Some { 1int } else { 0int }) + (
    if a.reuse_message is Some {
        1int
    } else {
        0int
    }) + (if a.reedit_message is Some { 1int } else { 0int })
}

/// The first error among the checks of options that cannot be combined.
pub open spec fn combination_error(a: Args) -> Option<Seq<char>> {
    let interactive = a.interactive || a.patch;
    if message_source_count(a) > 1 {
        Some("Only one of -m, -F, -C, -c can be used."@)
    } else if a.reset_author && a.author is Some {
        Some("options '--reset-author' and '--author' cannot be used together"@)
    } else if a.all && a.pathspec.len() > 0 {
        Some("paths '"@ + join(views(a.pathspec@), " "@) + "' with -a does not make sense"@)
    } else if a.include_paths && a.only {
        Some("fatal: options '-i/--include' and '-o/--only' cannot be used together"@)
    } else if a.include_paths && interactive {
        Some("fatal: options '-i/--include' and '--interactive/-p/--patch' cannot be used together"@)
    } else if a.only && interactive {
        Some("fatal: options '-o/--only' and '--interactive/-p/--patch' cannot be used together"@)
    } else if a.all && interactive {
        Some("fatal: options '-a/--all' and '--interactive/-p/--patch' cannot be used together"@)
    } else if a.fixup is Some && a.squash is Some {
        Some("fatal: options '--squash' and '--fixup' cannot be used together"@)
    } else {
        None
    }
}

/// The first error among the checks that depend on the kind of `--fixup` (`None` when there
/// is no `--fixup`), ending with the check of `--include` / `--only` without paths.
pub open spec fn fixup_option_error(a: Args, mode: Option<FixupMode>) -> Option<Seq<char>> {
    let reword = mode == Some(FixupMode::AmendStyle { is_reword: true });
    let amend = mode == Some(FixupMode::AmendStyle { is_reword: false });
    let amend_style = reword || amend;
    if reword && a.message.len() > 0 {
        Some("fatal: options '-m' and '--fixup:reword' cannot be used together"@)
    } else if amend && a.message.len() > 0 {
        Some("fatal: options '-m' and '--fixup:amend' cannot be used together"@)
    } else if reword && (a.all || a.include_paths || a.only || a.interactive || a.patch || a.pathspec.len()
        > 0) {
        if a.pathspec.len() > 0 {
            Some("fatal: reword option of '--fixup' and path '"@ + a.pathspec@[0]@ + "' cannot be used together"@)
        } else {
            Some(
                "fatal: reword option of '--fixup' and '--patch/--interactive/--all/--include/--only' cannot be used together"@,
            )
        }
    } else if mode is Some && a.reuse_message is Some {
        Some("fatal: options '-C' and '--fixup' cannot be used together"@)
    } else if mode is Some && a.reedit_message is Some {
        Some("fatal: options '-c' and '--fixup' cannot be used together"@)
    } else if mode is Some && a.file is Some {
        Some("fatal: options '-F' and '--fixup' cannot be used together"@)
    } else if a.pathspec.len() == 0 && (a.include_paths || (a.only && !a.allow_empty && (!a.amend || (
    mode is Some && !amend_style)) && !amend)) {
        Some("fatal: No paths with --include/--only does not make sense."@)
    } else {
        None
    }
}

/// What the option checks give: the first error, or the parsed `--fixup` (if any).
pub open spec fn option_check(a: Args) -> Result<Option<(FixupMode, Seq<char>)>, Seq<char>> {
    match combination_error(a) {
        Some(e) => Err(e),
        None => match a.fixup {
            None => match fixup_option_error(a, None) {
                Some(e) => Err(e),
                None => Ok(None),
            },
            Some(raw) => match fixup_spec(raw@) {
                Err(e) => Err(e),
                Ok((mode, r)) => match fixup_option_error(a, Some(mode)) {
                    Some(e) => Err(e),
                    None => Ok(Some((mode, r))),
                },
            },
        },
    }
}

pub open spec fn fixup_view(f: Option<FixupParsed>) -> Option<(FixupMode, Seq<char>)> {
    match f {
        Some(p) => Some((p.mode, p.commit_ref@)),
        None => None,
    }
}

/// The pathspecs joined with single spaces.
fn join_spaces(v: &Vec<String>) -> (r: String)
    ensures
        r@ == join(views(v@), " "@),
{
    let ghost xs = views(v@);
    let sp = chars_of(" ");
    let mut out: Vec<char> = Vec::new();
    let mut i: usize = 0;
    assert(xs.take(0) =~= Seq::<Seq<char>>::empty());
    while i < v.len()
        invariant
            xs == views(v@),
            sp@ == " "@,
            i <= v@.len(),
            out@ == join(xs.take(i as int), " "@),
        decreases v@.len() - i,
    {
        if i > 0 {
            push_all(&mut out, &sp);
        }
        let w = chars_of(v[i].as_str());
        push_all(&mut out, &w);
        proof {
            let t = xs.take(i + 1);
            assert(t.drop_last() =~= xs.take(i as int));
            assert(t.last() == v@[i as int]@);
            if i == 0 {
                assert(out@ =~= t[0]);
            } else {
                assert(out@ =~= join(t.drop_last(), " "@) + " "@ + t.last());
            }
        }
        i = i + 1;
    }
    assert(xs.take(xs.len() as int) =~= xs);
    string_all(&out)
}

fn combination_error_exec(args: &Args) -> (r: Option<String>)
    ensures
        opt_view(r) == combination_error(*args),
{
    let interactive = args.interactive || args.patch;
    let count: u8 = (if args.message.len() > 0 { 1u8 } else { 0u8 }) + (if args.file.is_some() { 1u8 } else { 0u8 }) + (
    if args.reuse_message.is_some() {
        1u8
    } else {
        0u8
    }) + (if args.reedit_message.is_some() { 1u8 } else { 0u8 });
    if count > 1 {
        Some("Only one of -m, -F, -C, -c can be used.".to_owned())
    } else if args.reset_author && args.author.is_some() {
        Some("options '--reset-author' and '--author' cannot be used together".to_owned())
    } else if args.all && args.pathspec.len() > 0 {
        let joined = join_spaces(&args.pathspec);
        let mut out = chars_of("paths '");
        let j = chars_of(joined.as_str());
        push_all(&mut out, &j);
        let tail = chars_of("' with -a does not make sense");
        push_all(&mut out, &tail);
        Some(string_all(&out))
    } else if args.include_paths && args.only {
        Some("fatal: options '-i/--include' and '-o/--only' cannot be used together".to_owned())
    } else if args.include_paths && interactive {
        Some("fatal: options '-i/--include' and '--interactive/-p/--patch' cannot be used together".to_owned())
    } else if args.only && interactive {
        Some("fatal: options '-o/--only' and '--interactive/-p/--patch' cannot be used together".to_owned())
    } else if args.all && interactive {
        Some("fatal: options '-a/--all' and '--interactive/-p/--patch' cannot be used together".to_owned())
    } else if args.fixup.is_some() && args.squash.is_some() {
        Some("fatal: options '--squash' and '--fixup' cannot be used together".to_owned())
    } else {
        None
    }
}

fn fixup_option_error_exec(args: &Args, mode: Option<FixupMode>) -> (r: Option<String>)
    ensures
        opt_view(r) == fixup_option_error(*args, mode),
{
    let reword = match mode {
        Some(FixupMode::AmendStyle { is_reword }) => is_reword,
        _ => false,
    };
    let amend = match mode {
        Some(FixupMode::AmendStyle { is_reword }) => !is_reword,
        _ => false,
    };
    let amend_style = reword || amend;
    let has_mode = mode.is_some();
    if reword && args.message.len() > 0 {
        Some("fatal: options '-m' and '--fixup:reword' cannot be used together".to_owned())
    } else if amend && args.message.len() > 0 {
        Some("fatal: options '-m' and '--fixup:amend' cannot be used together".to_owned())
    } else if reword && (args.all || args.include_paths || args.only || args.interactive || args.patch
        || args.pathspec.len() > 0) {
        if args.pathspec.len() > 0 {
            let mut out = chars_of("fatal: reword option of '--fixup' and path '");
            let p = chars_of(args.pathspec[0].as_str());
            push_all(&mut out, &p);
            let tail = chars_of("' cannot be used together");
            push_all(&mut out, &tail);
            Some(string_all(&out))
        } else {
            Some(
                "fatal: reword option of '--fixup' and '--patch/--interactive/--all/--include/--only' cannot be used together".to_owned(),
            )
        }
    } else if has_mode && args.reuse_message.is_some() {
        Some("fatal: options '-C' and '--fixup' cannot be used together".to_owned())
    } else if has_mode && args.reedit_message.is_some() {
        Some("fatal: options '-c' and '--fixup' cannot be used together".to_owned())
    } else if has_mode && args.file.is_some() {
        Some("fatal: options '-F' and '--fixup' cannot be used together".to_owned())
    } else if args.pathspec.len() == 0 && (args.include_paths || (args.only && !args.allow_empty && (
    !args.amend || (has_mode && !amend_style)) && !amend)) {
        Some("fatal: No paths with --include/--only does not make sense.".to_owned())
    } else {
        None
    }
}

/// The option checks that `commit` makes once its pathspecs are known, in order: options that
/// cannot be combined, then `--fixup` (parsed here) against the other options, then
/// `--include` / `--only` without paths. Gives the parsed `--fixup`, or the first error.
pub fn check_commit_options(args: &Args) -> (r: Result<Option<FixupParsed>, String>)
    ensures
        match r {
            Ok(f) => option_check(*args) == Ok::<Option<(FixupMode, Seq<char>)>, Seq<char>>(fixup_view(f)),
            Err(e) => option_check(*args) == Err::<Option<(FixupMode, Seq<char>)>, Seq<char>>(e@),
        },
{
    if let Some(e) = combination_error_exec(args) {
        return Err(e);
    }
    match &args.fixup {
        None => match fixup_option_error_exec(args, None) {
            Some(e) => Err(e),
            None => Ok(None),
        },
        Some(raw) => match parse_fixup_argument(raw.as_str()) {
            Err(e) => Err(e),
            Ok(f) => match fixup_option_error_exec(args, Some(f.mode)) {
                Some(e) => Err(e),
                None => Ok(Some(f)),
            },
        },
    }
}

// ----- message sources and the editor --------------------------------------------------

/// How `--fixup` shapes the commit.
#[derive(PartialEq, Eq, Structural, Clone, Copy, Debug)]
pub enum FixupMode {
    /// `fixup! <subject>`: uses the editor only with `--edit`.
    Fixup,
    /// `amend!` / `reword!`: the message body is built from the target commit.
    AmendStyle { is_reword: bool },
}

/// A parsed `--fixup` value.
pub struct FixupParsed {
    pub mode: FixupMode,
    pub commit_ref: String,
}

pub open spec fn alpha_only(s: Seq<char>) -> bool {
    forall|i: int| 0 <= i < s.len() ==> is_alpha(#[trigger] s[i])
}

/// `--fixup=[(amend|reword):]<commit>`: the mode and the commit, or the error message for an
/// unknown `<word>:` prefix.
pub open spec fn fixup_spec(raw: Seq<char>) -> Result<(FixupMode, Seq<char>), Seq<char>> {
    match find(raw, seq![':']) {
        Some(q) => {
            let a = raw.take(q);
            let b = raw.subrange(q + 1, raw.len() as int);
            if a.len() > 0 && alpha_only(a) {
                if a == "amend"@ {
                    Ok((FixupMode::AmendStyle { is_reword: false }, b))
                } else if a == "reword"@ {
                    Ok((FixupMode::AmendStyle { is_reword: true }, b))
                } else {
                    Err("unknown option: --fixup="@ + a + ":"@ + b)
                }
            } else {
                Ok((FixupMode::Fixup, raw))
            }
        },
        None => Ok((FixupMode::Fixup, raw)),
    }
}

/// Parses a `--fixup` value: `amend:<commit>` and `reword:<commit>` select the amend style,
/// any other `<letters>:` prefix is an error, and anything else names the commit to fix up.
pub fn parse_fixup_argument(raw: &str) -> (r: Result<FixupParsed, String>)
    ensures
        match r {
            Ok(f) => fixup_spec(raw@) == Ok::<(FixupMode, Seq<char>), Seq<char>>((f.mode, f.commit_ref@)),
            Err(e) => fixup_spec(raw@) == Err::<(FixupMode, Seq<char>), Seq<char>>(e@),
        },
{
    let v = chars_of(raw);
    let colon = vec![':'];
    assert(colon@ =~= seq![':']);
    match find_at(&v, &colon, 0) {
        Some(q) => {
            proof {
                lemma_find_from_props(v@, colon@, 0);
                assert(occurs_at(v@, colon@, q as int));
            }
            let n = v.len();
            let mut alpha = q > 0;
            let mut k: usize = 0;
            while k < q
                invariant
                    q < n == v@.len(),
                    k <= q,
                    alpha == (q > 0 && forall|j: int| 0 <= j < k ==> is_alpha(#[trigger] v@[j])),
                decreases q - k,
            {
                let c = v[k];
                if !(('a' <= c && c <= 'z') || ('A' <= c && c <= 'Z')) {
                    alpha = false;
                }
                k = k + 1;
            }
            assert(alpha == (v@.take(q as int).len() > 0 && alpha_only(v@.take(q as int)))) by {
                if q > 0 && !alpha_only(v@.take(q as int)) {
                    let j = choose|j: int| 0 <= j < q && !is_alpha(#[trigger] v@.take(q as int)[j]);
                    assert(v@.take(q as int)[j] == v@[j]);
                }
                if alpha {
                    assert forall|j: int| 0 <= j < q implies is_alpha(#[trigger] v@.take(q as int)[j]) by {
                        assert(v@.take(q as int)[j] == v@[j]);
                    }
                } else if q > 0 {
                    let j = choose|j: int| 0 <= j < q && !is_alpha(#[trigger] v@[j]);
                    assert(v@.take(q as int)[j] == v@[j]);
                }
            }
            if alpha {
                let mut a: Vec<char> = Vec::new();
                push_range(&mut a, &v, 0, q);
                assert(a@ =~= v@.take(q as int));
                let b = string_of(&v, q + 1, n);
                if eq_lit(&a, "amend") {
                    return Ok(FixupParsed { mode: FixupMode::AmendStyle { is_reword: false }, commit_ref: b });
                } else if eq_lit(&a, "reword") {
                    return Ok(FixupParsed { mode: FixupMode::AmendStyle { is_reword: true }, commit_ref: b });
                } else {
                    let mut e = chars_of("unknown option: --fixup=");
                    crate::text::push_all(&mut e, &a);
                    e.push(':');
                    let bv = chars_of(b.as_str());
                    crate::text::push_all(&mut e, &bv);
                    proof {
                        reveal_strlit(":");
                    }
                    assert(e@ =~= "unknown option: --fixup="@ + a@ + ":"@ + b@);
                    return Err(string_all(&e));
                }
            }
            Ok(FixupParsed { mode: FixupMode::Fixup, commit_ref: raw.to_owned() })
        },
        None => Ok(FixupParsed { mode: FixupMode::Fixup, commit_ref: raw.to_owned() }),
    }
}

pub open spec fn fixup_mode_of(fixup: Option<&FixupParsed>) -> Option<FixupMode> {
    match fixup {
        Some(f) => Some(f.mode),
        None => None,
    }
}

/// Whether the editor opens when neither `-e` nor `--no-edit` is given: not for `-m`, `-F`,
/// `-C` (without `-c`) or a plain `--fixup`.
pub open spec fn editor_by_default(args: Args, fixup: Option<FixupMode>) -> bool {
    if args.reuse_message is Some && args.reedit_message is None {
        false
    } else if args.message@.len() > 0 || args.file is Some {
        false
    } else {
        match fixup {
            Some(FixupMode::Fixup) => false,
            _ => true,
        }
    }
}

pub fn commit_uses_editor_default(args: &Args, fixup: Option<&FixupParsed>) -> (r: bool)
    ensures
        r == editor_by_default(*args, fixup_mode_of(fixup)),
{
    if args.reuse_message.is_some() && args.reedit_message.is_none() {
        return false;
    }
    if args.message.len() > 0 || args.file.is_some() {
        return false;
    }
    match fixup {
        Some(f) => match f.mode {
            FixupMode::Fixup => false,
            FixupMode::AmendStyle { .. } => true,
        },
        None => true,
    }
}

/// Whether the editor opens: `-e` forces it, `--no-edit` prevents it, and otherwise the
/// message source decides.
pub fn commit_uses_editor(args: &Args, fixup: Option<&FixupParsed>) -> (r: bool)
    ensures
        r == if args.edit {
            true
        } else if args.no_edit {
            false
        } else {
            editor_by_default(*args, fixup_mode_of(fixup))
        },
{
    let base = commit_uses_editor_default(args, fixup);
    if args.edit {
        return true;
    }
    if args.no_edit {
        return false;
    }
    base
}

/// Splits the `:(optional)` magic off a path: whether it was there, and the rest.
pub fn parse_optional_path_spec(spec: &str) -> (r: (bool, String))
    ensures
        r.0 == starts_with(spec@, ":(optional)"@),
        r.1@ == if r.0 {
            spec@.subrange(":(optional)"@.len() as int, spec@.len() as int)
        } else {
            spec@
        },
{
    let v = chars_of(spec);
    let opt = chars_of(":(optional)");
    if has_prefix(&v, &opt) {
        (true, string_of(&v, opt.len(), v.len()))
    } else {
        (false, spec.to_owned())
    }
}

/// With `--squash` and an editor, a blank line goes between the subject and the body that
/// follows it, unless one is there already.
pub open spec fn autosquash_message(args: Args, fixup: bool, used_editor: bool, m: Seq<char>) -> Seq<char> {
    if !used_editor || args.file is Some || args.reuse_message is Some || args.reedit_message is Some
        || args.squash is None || fixup {
        m
    } else {
        match find(m, seq!['\n']) {
            None => m,
            Some(q) => {
                let rest = m.subrange(q + 1, m.len() as int);
                let rest_trim = drop_leading(rest, vertical_lead());
                if rest_trim.len() == 0 || starts_with(rest, "\n\n"@) || starts_with(rest, "\r\n\r\n"@) {
                    m
                } else {
                    m.take(q) + "\n\n"@ + rest_trim
                }
            },
        }
    }
}

pub fn normalize_autosquash_editor_message(
    args: &Args,
    fixup: Option<&FixupParsed>,
    used_editor: bool,
    message: &str,
) -> (r: String)
    ensures
        r@ == autosquash_message(*args, fixup is Some, used_editor, message@),
{
    if !used_editor || args.file.is_some() || args.reuse_message.is_some() || args.reedit_message.is_some() {
        return message.to_owned();
    }
    if args.squash.is_none() || fixup.is_some() {
        return message.to_owned();
    }
    let v = chars_of(message);
    let nl = vec!['\n'];
    assert(nl@ =~= seq!['\n']);
    let q = match find_at(&v, &nl, 0) {
        Some(q) => q,
        None => {
            return message.to_owned();
        },
    };
    proof {
        lemma_find_from_props(v@, nl@, 0);
        assert(occurs_at(v@, nl@, q as int));
    }
    let n = v.len();
    let mut rest: Vec<char> = Vec::new();
    push_range(&mut rest, &v, q + 1, n);
    let ghost restv = v@.subrange(q + 1, n as int);
    assert(rest@ =~= restv);
    let mut k: usize = 0;
    assert(rest@.subrange(0, rest@.len() as int) =~= rest@);
    while k < rest.len() && (rest[k] == '\n' || rest[k] == '\r')
        invariant
            k <= rest@.len(),
            drop_leading(rest@.subrange(k as int, rest@.len() as int), vertical_lead()) == drop_leading(
                rest@,
                vertical_lead(),
            ),
        decreases rest@.len() - k,
    {
        assert(rest@.subrange(k as int, rest@.len() as int).drop_first() =~= rest@.subrange(k + 1, rest@.len() as int));
        k = k + 1;
    }
    assert(drop_leading(rest@, vertical_lead()) == rest@.subrange(k as int, rest@.len() as int));
    if k == rest.len() || crate::text::starts_lit(&rest, "\n\n") || crate::text::starts_lit(&rest, "\r\n\r\n") {
        return message.to_owned();
    }
    let mut out: Vec<char> = Vec::new();
    push_range(&mut out, &v, 0, q);
    let nn = chars_of("\n\n");
    crate::text::push_all(&mut out, &nn);
    push_range(&mut out, &rest, k, rest.len());
    assert(out@ =~= v@.take(q as int) + "\n\n"@ + rest@.subrange(k as int, rest@.len() as int));
    string_all(&out)
}

// ----- configuration decisions ---------------------------------------------------------

/// `v` holds exactly the characters of one of `lits`.
fn is_one_of(v: &[char], lits: &Vec<&str>) -> (r: bool)
    ensures
        r == exists|k: int| 0 <= k < lits@.len() && v@ == (#[trigger] lits@[k])@,
{
    let mut k: usize = 0;
    while k < lits.len()
        invariant
            k <= lits@.len(),
            forall|j: int| 0 <= j < k ==> v@ != (#[trigger] lits@[j])@,
        decreases lits@.len() - k,
    {
        if eq_lit(v, lits[k]) {
            return true;
        }
        k = k + 1;
    }
    false
}

/// `commit.cleanup` (or `--cleanup`, which wins) as a mode; unknown and missing values give
/// the default: `strip` with an editor, `whitespace` without. `scissors` without an editor is
/// `whitespace`.
pub open spec fn cleanup_mode_spec(value: Option<Seq<char>>, use_editor: bool) -> CommitMsgCleanupMode {
    let default = if use_editor {
        CommitMsgCleanupMode::All
    } else {
        CommitMsgCleanupMode::Space
    };
    match value {
        None => default,
        Some(v) => {
            let t = trim(v);
            if t == "verbatim"@ {
                CommitMsgCleanupMode::Verbatim
            } else if t == "whitespace"@ {
                CommitMsgCleanupMode::Space
            } else if t == "strip"@ {
                CommitMsgCleanupMode::All
            } else if t == "scissors"@ {
                if use_editor {
                    CommitMsgCleanupMode::Scissors
                } else {
                    CommitMsgCleanupMode::Space
                }
            } else {
                default
            }
        },
    }
}

/// The cleanup modes by name, whether given by `--cleanup` or `commit.cleanup`, trimmed:
/// `verbatim` keeps the message, `whitespace` only trims, `strip` also drops comments, and
/// `scissors` cuts at the scissors line when the editor is used (else it only trims); no value
/// gives `strip` with the editor and `whitespace` without.
pub proof fn law_cleanup_mode_names(v: Seq<char>, use_editor: bool)
    ensures
        trim(v) == "verbatim"@ ==> cleanup_mode_spec(Some(v), use_editor) == CommitMsgCleanupMode::Verbatim,
        trim(v) == "whitespace"@ ==> cleanup_mode_spec(Some(v), use_editor) == CommitMsgCleanupMode::Space,
        trim(v) == "strip"@ ==> cleanup_mode_spec(Some(v), use_editor) == CommitMsgCleanupMode::All,
        trim(v) == "scissors"@ ==> cleanup_mode_spec(Some(v), use_editor) == (if use_editor {
            CommitMsgCleanupMode::Scissors
        } else {
            CommitMsgCleanupMode::Space
        }),
        cleanup_mode_spec(None, use_editor) == (if use_editor {
            CommitMsgCleanupMode::All
        } else {
            CommitMsgCleanupMode::Space
        }),
        trim(v) != "verbatim"@ && trim(v) != "whitespace"@ && trim(v) != "strip"@ && trim(v) != "scissors"@
            ==> cleanup_mode_spec(Some(v), use_editor) == cleanup_mode_spec(None, use_editor),
{
    reveal_strlit("verbatim");
    reveal_strlit("whitespace");
    reveal_strlit("strip");
    reveal_strlit("scissors");
    assert("verbatim"@.len() == 8 && "whitespace"@.len() == 10 && "strip"@.len() == 5);
    assert("verbatim"@ != "whitespace"@ && "verbatim"@ != "strip"@ && "whitespace"@ != "strip"@);
    assert("scissors"@[0] != "verbatim"@[0]);
    assert("scissors"@ != "verbatim"@ && "scissors"@ != "whitespace"@ && "scissors"@ != "strip"@);
}

/// `--cleanup=whitespace` keeps comment lines and everything else: a message that neither
/// starts with a line break nor ends with whitespace comes out of the cleanup unchanged,
/// whatever its comment prefix.
pub proof fn law_whitespace_cleanup_keeps_comments(v: Seq<char>, use_editor: bool, m: Seq<char>, prefix: Seq<char>)
    requires
        trim(v) == "whitespace"@,
        m.len() == 0 || (m[0] != '\n' && m[0] != '\r' && m.last() != '\n' && m.last() != '\r' && m.last() != ' '
            && m.last() != '\t'),
    ensures
        crate::message::cleaned_message(m, 0, prefix, cleanup_mode_spec(Some(v), use_editor)) == m,
{
    law_cleanup_mode_names(v, use_editor);
    if m.len() > 0 {
        assert(drop_leading(m, vertical_lead()) == m);
        assert(crate::message::trim_trailing(m, crate::message::vertical_trail()) == m);
    } else {
        assert(drop_leading(m, vertical_lead()) == m);
    }
}

/// The cleanup mode from `--cleanup`, else the `commit.cleanup` value (`config_cleanup`).
pub fn resolve_commit_cleanup_mode(args: &Args, config_cleanup: Option<&str>, use_editor: bool) -> (r: CommitMsgCleanupMode)
    ensures
        r == cleanup_mode_spec(
            match args.cleanup {
                Some(c) => Some(c@),
                None => match config_cleanup {
                    Some(c) => Some(c@),
                    None => None,
                },
            },
            use_editor,
        ),
{
    let default = if use_editor {
        CommitMsgCleanupMode::All
    } else {
        CommitMsgCleanupMode::Space
    };
    let raw = match &args.cleanup {
        Some(c) => chars_of(c.as_str()),
        None => match config_cleanup {
            Some(c) => chars_of(c),
            None => {
                return default;
            },
        },
    };
    let (a, b) = trim_bounds(&raw, 0, raw.len());
    let mut t: Vec<char> = Vec::new();
    push_range(&mut t, &raw, a, b);
    assert(raw@.subrange(0, raw@.len() as int) =~= raw@);
    assert(t@ =~= trim(raw@));
    if eq_lit(&t, "verbatim") {
        CommitMsgCleanupMode::Verbatim
    } else if eq_lit(&t, "whitespace") {
        CommitMsgCleanupMode::Space
    } else if eq_lit(&t, "strip") {
        CommitMsgCleanupMode::All
    } else if eq_lit(&t, "scissors") {
        if use_editor {
            CommitMsgCleanupMode::Scissors
        } else {
            CommitMsgCleanupMode::Space
        }
    } else {
        default
    }
}

/// Git's truthy config words.
pub open spec fn is_true_word(s: Seq<char>) -> bool {
    s == "true"@ || s == "yes"@ || s == "on"@ || s == "1"@ || s == ""@
}

pub open spec fn is_false_word(s: Seq<char>) -> bool {
    s == "false"@ || s == "no"@ || s == "off"@ || s == "0"@
}

/// `commit.verbose`: a boolean word or an integer (other text counts as 0); `-1` when unset.
pub open spec fn commit_verbose_spec(value: Option<Seq<char>>) -> int {
    match value {
        None => -1,
        Some(v) => {
            let t = trim(v);
            if is_true_word(lower(t)) {
                1
            } else if is_false_word(lower(t)) {
                0
            } else {
                match int_text(t) {
                    Some(n) => if i64::MIN <= n <= i64::MAX { n } else { 0 },
                    None => 0,
                }
            }
        },
    }
}

/// Reads `commit.verbose` (given as its configured value, if any).
pub fn config_commit_verbose_raw(value: Option<&str>) -> (r: i64)
    ensures
        r == commit_verbose_spec(
            match value {
                Some(v) => Some(v@),
                None => None,
            },
        ),
{
    let v = match value {
        Some(v) => chars_of(v),
        None => {
            return -1;
        },
    };
    let (a, b) = trim_bounds(&v, 0, v.len());
    assert(v@.subrange(0, v@.len() as int) =~= v@);
    let low = lowercase_range(&v, a, b);
    let trues = vec!["true", "yes", "on", "1", ""];
    let falses = vec!["false", "no", "off", "0"];
    if is_one_of(&low, &trues) {
        assert(is_true_word(low@)) by {
            let k = choose|k: int| 0 <= k < trues@.len() && low@ == (#[trigger] trues@[k])@;
            assert(k == 0 || k == 1 || k == 2 || k == 3 || k == 4);
        }
        return 1;
    }
    assert(!is_true_word(low@)) by {
        if is_true_word(low@) {
            if low@ == "true"@ { assert(low@ == trues@[0]@); }
            if low@ == "yes"@ { assert(low@ == trues@[1]@); }
            if low@ == "on"@ { assert(low@ == trues@[2]@); }
            if low@ == "1"@ { assert(low@ == trues@[3]@); }
            if low@ == ""@ { assert(low@ == trues@[4]@); }
        }
    }
    if is_one_of(&low, &falses) {
        assert(is_false_word(low@)) by {
            let k = choose|k: int| 0 <= k < falses@.len() && low@ == (#[trigger] falses@[k])@;
            assert(k == 0 || k == 1 || k == 2 || k == 3);
        }
        return 0;
    }
    assert(!is_false_word(low@)) by {
        if is_false_word(low@) {
            if low@ == "false"@ { assert(low@ == falses@[0]@); }
            if low@ == "no"@ { assert(low@ == falses@[1]@); }
            if low@ == "off"@ { assert(low@ == falses@[2]@); }
            if low@ == "0"@ { assert(low@ == falses@[3]@); }
        }
    }
    match parse_i64(&v, a, b) {
        Some(n) => n,
        None => 0,
    }
}

/// The verbosity: the count from the command line scan when there was one, else `-v` as
/// parsed, else `commit.verbose` when set (`config_verbose >= 0`), else 0.
pub fn resolve_commit_verbose_level(args: &Args, config_verbose: i64, scanned: Option<u32>) -> (r: i64)
    ensures
        r == match scanned {
            Some(n) => n as int,
            None => if args.verbose > 0 {
                args.verbose as int
            } else if config_verbose >= 0 {
                config_verbose as int
            } else {
                0
            },
        },
{
    if let Some(n) = scanned {
        return n as i64;
    }
    if args.verbose > 0 {
        return args.verbose as i64;
    }
    if config_verbose >= 0 {
        config_verbose
    } else {
        0
    }
}

/// Whether to sign: `--no-gpg-sign` wins, then `-S`, then `commit.gpgsign` being true.
pub fn should_sign_commit(args: &Args, config_gpgsign: bool) -> (r: bool)
    ensures
        r == (!args.no_gpg_sign && (args.gpg_sign is Some || config_gpgsign)),
{
    if args.no_gpg_sign {
        return false;
    }
    if args.gpg_sign.is_some() {
        return true;
    }
    config_gpgsign
}

// ----- hooks and sequencer hand-off ----------------------------------------------------

/// The message source that `prepare-commit-msg` is told about: `message` for `-m`, `-F` and
/// `--fixup`; then `squash` / `merge` when those message files exist; `template` for `-t`;
/// `commit` with `CHERRY_PICK_HEAD`, the reused commit, or `HEAD` for `--amend`; else nothing.
pub open spec fn hook_args_spec(
    args: Args,
    merge_msg: bool,
    squash_msg: bool,
    cherry_pick_head: bool,
) -> (Option<Seq<char>>, Option<Seq<char>>) {
    if args.message@.len() > 0 || args.file is Some || args.fixup is Some {
        (Some("message"@), None)
    } else if merge_msg {
        (Some(if squash_msg { "squash"@ } else { "merge"@ }), None)
    } else if squash_msg {
        (Some("squash"@), None)
    } else if args.template is Some {
        (Some("template"@), None)
    } else if cherry_pick_head {
        (Some("commit"@), Some("CHERRY_PICK_HEAD"@))
    } else if args.reuse_message is Some {
        (Some("commit"@), opt_view(args.reuse_message))
    } else if args.reedit_message is Some {
        (Some("commit"@), opt_view(args.reedit_message))
    } else if args.amend {
        (Some("commit"@), Some("HEAD"@))
    } else {
        (None, None)
    }
}

pub open spec fn str_view(o: Option<&'static str>) -> Option<Seq<char>> {
    match o {
        Some(s) => Some(s@),
        None => None,
    }
}

/// The first and second argument for `prepare-commit-msg`; the three flags tell whether
/// `MERGE_MSG`, `SQUASH_MSG` and `CHERRY_PICK_HEAD` exist in the git directory.
pub fn prepare_commit_msg_hook_args(
    args: &Args,
    merge_msg: bool,
    squash_msg: bool,
    cherry_pick_head: bool,
) -> (r: (Option<&'static str>, Option<String>))
    ensures
        (str_view(r.0), opt_view(r.1)) == hook_args_spec(*args, merge_msg, squash_msg, cherry_pick_head),
{
    if args.message.len() > 0 || args.file.is_some() || args.fixup.is_some() {
        return (Some("message"), None);
    }
    if merge_msg {
        if squash_msg {
            return (Some("squash"), None);
        }
        return (Some("merge"), None);
    }
    if squash_msg {
        return (Some("squash"), None);
    }
    if args.template.is_some() {
        return (Some("template"), None);
    }
    if cherry_pick_head {
        return (Some("commit"), Some("CHERRY_PICK_HEAD".to_owned()));
    }
    match &args.reuse_message {
        Some(r) => {
            return (Some("commit"), Some(r.clone()));
        },
        None => {},
    }
    match &args.reedit_message {
        Some(r) => {
            return (Some("commit"), Some(r.clone()));
        },
        None => {},
    }
    if args.amend {
        return (Some("commit"), Some("HEAD".to_owned()));
    }
    (None, None)
}

/// Index of the first line whose trimmed end equals `header`.
pub open spec fn first_line_equal(ls: Seq<Seq<char>>, i: int, header: Seq<char>) -> Option<int>
    decreases ls.len() - i,
{
    if i < 0 || i >= ls.len() {
        None
    } else if crate::text::trim_end(ls[i]) == header {
        Some(i)
    } else {
        first_line_equal(ls, i + 1, header)
    }
}

/// The lines from `i` on, each followed by a newline.
pub open spec fn lines_from(ls: Seq<Seq<char>>, i: int) -> Seq<char>
    decreases ls.len() - i,
{
    if i < 0 || i >= ls.len() {
        Seq::empty()
    } else {
        ls[i] + "\n"@ + lines_from(ls, i + 1)
    }
}

/// The conflicts part of `MERGE_MSG`: from the line `<prefix> Conflicts:` on, after a newline.
pub open spec fn conflicts_block(merge_msg: Seq<char>, prefix: Seq<char>) -> Option<Seq<char>> {
    let ls = crate::text::lines(merge_msg);
    match first_line_equal(ls, 0, prefix + " Conflicts:"@) {
        Some(k) => Some("\n"@ + lines_from(ls, k)),
        None => None,
    }
}

/// The conflict list to show in the commit template, from the text of `MERGE_MSG` (`None`
/// when it could not be read).
pub fn conflicts_comment_block(merge_msg: Option<&str>, comment_prefix: &str) -> (r: Option<String>)
    ensures
        opt_view(r) == match merge_msg {
            Some(m) => conflicts_block(m@, comment_prefix@),
            None => None,
        },
{
    let m = match merge_msg {
        Some(m) => m,
        None => {
            return None;
        },
    };
    let v = chars_of(m);
    let mut header = chars_of(comment_prefix);
    let tail = chars_of(" Conflicts:");
    crate::text::push_all(&mut header, &tail);
    let ls = crate::text::split_lines(&v);
    let ghost lsv = crate::text::lines(v@);
    let mut i: usize = 0;
    while i < ls.len()
        invariant
            lsv == crate::text::lines(v@),
            header@ == comment_prefix@ + " Conflicts:"@,
            ls@.len() == lsv.len(),
            forall|j: int|
                #![trigger ls@[j]]
                0 <= j < ls@.len() ==> ls@[j].0 <= ls@[j].1 <= v@.len() && v@.subrange(
                    ls@[j].0 as int,
                    ls@[j].1 as int,
                ) == lsv[j],
            i <= ls@.len(),
            first_line_equal(lsv, i as int, header@) == first_line_equal(lsv, 0, header@),
        ensures
            i <= ls@.len(),
            first_line_equal(lsv, 0, header@) == if i < ls@.len() {
                Some(i as int)
            } else {
                None::<int>
            },
        decreases ls@.len() - i,
    {
        let (lo, hi) = ls[i];
        assert(v@.subrange(lo as int, hi as int) == lsv[i as int]);
        let n = crate::text::ws_kept(&v, lo, hi);
        let mut line: Vec<char> = Vec::new();
        push_range(&mut line, &v, lo, lo + n);
        assert(line@ =~= crate::text::trim_end(lsv[i as int]));
        if crate::text::seq_eq(&line, &header) {
            break;
        }
        i = i + 1;
    }
    if i == ls.len() {
        return None;
    }
    let mut block = vec!['\n'];
    let ghost start = i as int;
    let mut k: usize = ls.len();
    assert(lines_from(lsv, k as int) == Seq::<char>::empty());
    let mut acc: Vec<char> = Vec::new();
    while k > i
        invariant
            start == i,
            i <= k <= ls@.len(),
            ls@.len() == lsv.len(),
            forall|j: int|
                #![trigger ls@[j]]
                0 <= j < ls@.len() ==> ls@[j].0 <= ls@[j].1 <= v@.len() && v@.subrange(
                    ls@[j].0 as int,
                    ls@[j].1 as int,
                ) == lsv[j],
            acc@ == lines_from(lsv, k as int),
        decreases k,
    {
        let (lo, hi) = ls[k - 1];
        let mut piece: Vec<char> = Vec::new();
        push_range(&mut piece, &v, lo, hi);
        piece.push('\n');
        crate::text::push_all(&mut piece, &acc);
        proof {
            reveal_strlit("\n");
        }
        acc = piece;
        k = k - 1;
        assert(acc@ =~= lines_from(lsv, k as int));
    }
    crate::text::push_all(&mut block, &acc);
    proof {
        reveal_strlit("\n");
    }
    assert(block@ =~= "\n"@ + lines_from(lsv, i as int));
    Some(string_all(&block))
}

/// With the text of the sequencer's todo list (`None` when there is none): whether at most
/// its final line is left, i.e. it has no newline or nothing after its first one.
pub fn sequencer_finished_last_pick(todo: Option<&str>) -> (r: bool)
    ensures
        r == match todo {
            Some(t) => match find(t@, seq!['\n']) {
                Some(e) => e + 1 == t@.len(),
                None => true,
            },
            None => false,
        },
{
    let t = match todo {
        Some(t) => t,
        None => {
            return false;
        },
    };
    let v = chars_of(t);
    let nl = vec!['\n'];
    assert(nl@ =~= seq!['\n']);
    match find_at(&v, &nl, 0) {
        None => true,
        Some(e) => {
            proof {
                lemma_find_from_props(v@, nl@, 0);
                assert(occurs_at(v@, nl@, e as int));
            }
            let n = v.len();
            e + 1 == n
        },
    }
}

/// The effect of the `-v` arguments from index `i` on: `--no-verbose` resets the count to 0,
/// `-v`, `--verbose` and `-vv...` add to it (saturating); `None` when none was seen.
pub open spec fn verbose_scan(argv: Seq<Seq<char>>, i: int, eff: Option<u32>) -> Option<u32>
    decreases argv.len() - i,
{
    if i < 0 || i >= argv.len() {
        eff
    } else {
        let a = argv[i];
        if a == "--no-verbose"@ {
            verbose_scan(argv, i + 1, Some(0))
        } else {
            let inc: Option<u32> = if a == "-v"@ || a == "--verbose"@ {
                Some(1)
            } else if a.len() > 1 && a[0] == '-' && !starts_with(a, "--"@) && (forall|j: int|
                1 <= j < a.len() ==> #[trigger] a[j] == 'v') {
                Some((a.len() - 1) as u32)
            } else {
                None
            };
            match inc {
                Some(n) => {
                    let base: u32 = match eff {
                        Some(b) => b,
                        None => 0,
                    };
                    let sum: int = base + n;
                    verbose_scan(argv, i + 1, Some(if sum > u32::MAX { u32::MAX } else { sum as u32 }))
                },
                None => verbose_scan(argv, i + 1, eff),
            }
        }
    }
}

/// The arguments without `--no-verbose`.
pub open spec fn without_no_verbose(argv: Seq<Seq<char>>) -> Seq<Seq<char>>
    decreases argv.len(),
{
    if argv.len() == 0 {
        Seq::empty()
    } else if argv.last() == "--no-verbose"@ {
        without_no_verbose(argv.drop_last())
    } else {
        without_no_verbose(argv.drop_last()).push(argv.last())
    }
}

/// Scans `commit`'s arguments for `-v` / `--verbose` / `--no-verbose` in Git's order: the
/// effective verbosity (if any was given) and the arguments without `--no-verbose`.
pub fn preprocess_commit_for_parse(argv: &[String]) -> (r: (Vec<String>, Option<u32>))
    ensures
        views(r.0@) == without_no_verbose(views(argv@)),
        r.1 == verbose_scan(views(argv@), 0, None),
{
    let ghost av = views(argv@);
    let mut eff: Option<u32> = None;
    let mut out: Vec<String> = Vec::new();
    let mut i: usize = 0;
    assert(av.take(0) =~= Seq::<Seq<char>>::empty());
    while i < argv.len()
        invariant
            av == views(argv@),
            i <= av.len(),
            verbose_scan(av, i as int, eff) == verbose_scan(av, 0, None),
            views(out@) == without_no_verbose(av.take(i as int)),
        decreases av.len() - i,
    {
        let a = chars_of(argv[i].as_str());
        assert(a@ == av[i as int]);
        assert(av.take(i + 1).drop_last() =~= av.take(i as int));
        assert(av.take(i + 1).last() == av[i as int]);
        if eq_lit(&a, "--no-verbose") {
            eff = Some(0);
        } else {
            let ghost before = out@;
            let x = argv[i].clone();
            out.push(x);
            proof {
                lemma_views_push(before, x);
            }
            let mut inc: Option<u32> = None;
            if eq_lit(&a, "-v") || eq_lit(&a, "--verbose") {
                inc = Some(1);
            } else if a.len() > 1 && a[0] == '-' && !crate::text::starts_lit(&a, "--") {
                let mut all_v = true;
                let mut k: usize = 1;
                while k < a.len()
                    invariant
                        1 <= k <= a@.len(),
                        all_v == forall|j: int| 1 <= j < k ==> #[trigger] a@[j] == 'v',
                    decreases a@.len() - k,
                {
                    if a[k] != 'v' {
                        all_v = false;
                    }
                    k = k + 1;
                }
                if all_v {
                    inc = Some((a.len() - 1) as u32);
                }
            }
            match inc {
                Some(n) => {
                    let base: u32 = match eff {
                        Some(b) => b,
                        None => 0,
                    };
                    eff = Some(base.saturating_add(n));
                },
                None => {},
            }
        }
        i = i + 1;
    }
    assert(av.take(av.len() as int) =~= av);
    (out, eff)
}

// ----- comment character and rename settings -------------------------------------------

/// The comment prefix from the configured `core.commentChar` / `core.commentString` value:
/// `#` when unset, blank or `auto`, else the value trimmed.
pub open spec fn comment_prefix_spec(value: Option<Seq<char>>) -> Seq<char> {
    match value {
        None => "#"@,
        Some(v) => if trim(v).len() == 0 || lower(trim(v)) == "auto"@ {
            "#"@
        } else {
            trim(v)
        },
    }
}

pub fn comment_line_prefix_full(value: Option<&str>) -> (r: String)
    ensures
        r@ == comment_prefix_spec(
            match value {
                Some(v) => Some(v@),
                None => None,
            },
        ),
{
    let v = match value {
        Some(v) => chars_of(v),
        None => {
            return "#".to_owned();
        },
    };
    let (a, b) = trim_bounds(&v, 0, v.len());
    assert(v@.subrange(0, v@.len() as int) =~= v@);
    let low = lowercase_range(&v, a, b);
    if a == b || eq_lit(&low, "auto") {
        return "#".to_owned();
    }
    string_of(&v, a, b)
}

/// Some `core.commentchar` entry of the configuration is `auto` (trimmed, any case).
pub open spec fn auto_comment_configured(entries: Seq<(Seq<char>, Option<Seq<char>>)>) -> bool {
    exists|k: int|
        0 <= k < entries.len() && (#[trigger] entries[k]).0 == "core.commentchar"@ && match entries[k].1 {
            Some(v) => lower(trim(v)) == "auto"@,
            None => false,
        }
}

pub open spec fn entry_views(v: Seq<(String, Option<String>)>) -> Seq<(Seq<char>, Option<Seq<char>>)> {
    v.map_values(|e: (String, Option<String>)| (e.0@, opt_view(e.1)))
}

/// Whether the configuration (its entries, key and value) sets `core.commentChar=auto`.
pub fn has_auto_comment_char(entries: &[(String, Option<String>)]) -> (r: bool)
    ensures
        r == auto_comment_configured(entry_views(entries@)),
{
    let ghost ev = entry_views(entries@);
    let mut k: usize = 0;
    while k < entries.len()
        invariant
            ev == entry_views(entries@),
            k <= ev.len(),
            forall|j: int|
                0 <= j < k ==> !((#[trigger] ev[j]).0 == "core.commentchar"@ && match ev[j].1 {
                    Some(v) => lower(trim(v)) == "auto"@,
                    None => false,
                }),
        decreases ev.len() - k,
    {
        let key = chars_of(entries[k].0.as_str());
        assert(ev[k as int].0 == key@);
        if eq_lit(&key, "core.commentchar") {
            match &entries[k].1 {
                Some(v) => {
                    let vv = chars_of(v.as_str());
                    let (a, b) = trim_bounds(&vv, 0, vv.len());
                    assert(vv@.subrange(0, vv@.len() as int) =~= vv@);
                    let low = lowercase_range(&vv, a, b);
                    if eq_lit(&low, "auto") {
                        return true;
                    }
                },
                None => {},
            }
        }
        k = k + 1;
    }
    false
}

/// The comment prefix for a message: with `core.commentChar=auto`, the first character of
/// `#;@!$%^&|:` that starts no line of the message (an error when there is none); otherwise
/// the configured prefix.
pub fn comment_line_prefix_for_message(auto: bool, configured: &str, message: &str) -> (r: Result<String, String>)
    ensures
        if auto {
            match crate::message::free_comment_char_from(message@, 0) {
                Some(c) => r matches Ok(s) && s@ == seq![c],
                None => r matches Err(e) && e@ == "fatal: unable to select a comment character"@,
            }
        } else {
            r matches Ok(s) && s@ == configured@
        },
{
    if auto {
        return match crate::message::auto_comment_prefix_for_message(message) {
            Some(c) => Ok(c),
            None => Err("fatal: unable to select a comment character".to_owned()),
        };
    }
    Ok(configured.to_owned())
}

/// The rename detection of `commit`'s status from `status.renames` (else `diff.renames`): off
/// for false words and unknown values, a 50% threshold for true words, and also copies for
/// `copies` / `copy`; on without copies when neither is set.
pub open spec fn rename_settings_spec(value: Option<Seq<char>>) -> (Option<u32>, bool) {
    match value {
        None => (Some(50), false),
        Some(v) => {
            let l = lower(trim(v));
            if is_false_word(l) {
                (None, false)
            } else if is_true_word(l) {
                (Some(50), false)
            } else if l == "copies"@ || l == "copy"@ {
                (Some(50), true)
            } else {
                (None, false)
            }
        },
    }
}

pub fn commit_rename_settings(status_renames: Option<&str>, diff_renames: Option<&str>) -> (r: (Option<u32>, bool))
    ensures
        r == rename_settings_spec(
            match status_renames {
                Some(v) => Some(v@),
                None => match diff_renames {
                    Some(v) => Some(v@),
                    None => None,
                },
            },
        ),
{
    let v = match status_renames {
        Some(v) => chars_of(v),
        None => match diff_renames {
            Some(v) => chars_of(v),
            None => {
                return (Some(50), false);
            },
        },
    };
    let (a, b) = trim_bounds(&v, 0, v.len());
    assert(v@.subrange(0, v@.len() as int) =~= v@);
    let l = lowercase_range(&v, a, b);
    if eq_lit(&l, "false") || eq_lit(&l, "no") || eq_lit(&l, "off") || eq_lit(&l, "0") {
        (None, false)
    } else if eq_lit(&l, "true") || eq_lit(&l, "yes") || eq_lit(&l, "on") || eq_lit(&l, "1") || eq_lit(&l, "") {
        (Some(50), false)
    } else if eq_lit(&l, "copies") || eq_lit(&l, "copy") {
        (Some(50), true)
    } else {
        (None, false)
    }
}

/// Index of the first argument that is the word `commit`.
pub open spec fn commit_word_at(argv: Seq<Seq<u8>>, i: int) -> Option<int>
    decreases argv.len() - i,
{
    if i < 0 || i >= argv.len() {
        None
    } else if argv[i] == "commit".spec_bytes() {
        Some(i)
    } else {
        commit_word_at(argv, i + 1)
    }
}

/// The raw program arguments after the first `commit` (the subcommand), if there is one.
pub fn raw_commit_rest(argv: &[Vec<u8>]) -> (r: Option<Vec<Vec<u8>>>)
    ensures
        match commit_word_at(byte_views(argv@), 0) {
            Some(p) => r matches Some(rest) && byte_views(rest@) == byte_views(argv@).subrange(p + 1, argv@.len() as int),
            None => r is None,
        },
{
    let ghost av = byte_views(argv@);
    let word = "commit".as_bytes();
    let mut i: usize = 0;
    while i < argv.len()
        invariant
            av == byte_views(argv@),
            word@ == "commit".spec_bytes(),
            i <= argv@.len(),
            commit_word_at(av, i as int) == commit_word_at(av, 0),
        decreases argv@.len() - i,
    {
        assert(av[i as int] == argv@[i as int]@);
        if bytes_equal(argv[i].as_slice(), word) {
            let mut rest: Vec<Vec<u8>> = Vec::new();
            let mut j = i + 1;
            while j < argv.len()
                invariant
                    av == byte_views(argv@),
                    i < j <= argv@.len(),
                    byte_views(rest@) == av.subrange(i + 1, j as int),
                decreases argv@.len() - j,
            {
                let ghost before = rest@;
                let x = byte_tail(argv[j].as_slice(), 0);
                assert(argv@[j as int]@.subrange(0, argv@[j as int]@.len() as int) =~= argv@[j as int]@);
                rest.push(x);
                assert(byte_views(rest@) =~= byte_views(before).push(av[j as int]));
                assert(av.subrange(i + 1, j + 1) =~= av.subrange(i + 1, j as int).push(av[j as int]));
                j = j + 1;
            }
            return Some(rest);
        }
        i = i + 1;
    }
    None
}

// ----- a stopped interactive rebase pick -------------------------------------------------

/// A commit made while an interactive rebase stopped at a `pick`: a rebase directory exists
/// and `REBASE_HEAD` and `CHERRY_PICK_HEAD` (trimmed) name the same, non-empty commit.
pub fn rebase_pick_whence(rebase_dir_exists: bool, rebase_head: Option<&str>, cherry_pick_head: Option<&str>) -> (r: bool)
    ensures
        r == (rebase_dir_exists && match (rebase_head, cherry_pick_head) {
            (Some(rh), Some(ch)) => trim(rh@).len() > 0 && trim(rh@) == trim(ch@),
            _ => false,
        }),
{
    if !rebase_dir_exists {
        return false;
    }
    match (rebase_head, cherry_pick_head) {
        (Some(rh), Some(ch)) => {
            let a = chars_of(rh);
            let b = chars_of(ch);
            let (a0, a1) = trim_bounds(&a, 0, a.len());
            let (b0, b1) = trim_bounds(&b, 0, b.len());
            assert(a@.subrange(0, a@.len() as int) =~= a@);
            assert(b@.subrange(0, b@.len() as int) =~= b@);
            let mut ta: Vec<char> = Vec::new();
            push_range(&mut ta, &a, a0, a1);
            let mut tb: Vec<char> = Vec::new();
            push_range(&mut tb, &b, b0, b1);
            ta.len() > 0 && crate::text::seq_eq(&ta, &tb)
        },
        _ => false,
    }
}

// ----- status labels ---------------------------------------------------------------------

/// The kind of change of a path, as a diff reports it (`Other` for any kind not named here).
#[derive(PartialEq, Eq, Structural, Clone, Copy, Debug)]
pub enum ChangeKind {
    Added,
    Deleted,
    Modified,
    Renamed,
    TypeChanged,
    Other,
}

pub open spec fn staged_label_spec(k: ChangeKind) -> Seq<char> {
    match k {
        ChangeKind::Added => "new file"@,
        ChangeKind::Deleted => "deleted"@,
        ChangeKind::Modified => "modified"@,
        ChangeKind::Renamed => "renamed"@,
        ChangeKind::TypeChanged => "typechange"@,
        ChangeKind::Other => "changed"@,
    }
}

pub open spec fn unstaged_label_spec(k: ChangeKind) -> Seq<char> {
    match k {
        ChangeKind::Deleted => "deleted"@,
        ChangeKind::Modified => "modified"@,
        ChangeKind::TypeChanged => "typechange"@,
        _ => "changed"@,
    }
}

/// The label of a staged change in the status part of the commit template.
pub fn status_label_staged(kind: ChangeKind) -> (r: &'static str)
    ensures
        r@ == staged_label_spec(kind),
{
    match kind {
        ChangeKind::Added => "new file",
        ChangeKind::Deleted => "deleted",
        ChangeKind::Modified => "modified",
        ChangeKind::Renamed => "renamed",
        ChangeKind::TypeChanged => "typechange",
        ChangeKind::Other => "changed",
    }
}

/// The label of a change not staged for commit.
pub fn status_label_unstaged(kind: ChangeKind) -> (r: &'static str)
    ensures
        r@ == unstaged_label_spec(kind),
{
    match kind {
        ChangeKind::Deleted => "deleted",
        ChangeKind::Modified => "modified",
        ChangeKind::TypeChanged => "typechange",
        _ => "changed",
    }
}

// ----- the status part of the template ---------------------------------------------------

/// Whether the commit template shows the status: not with `--no-status`, always with
/// `--status`, else unless `commit.status` is `false`, `no`, `off` or `0` (trimmed,
/// ignoring ASCII case).
pub open spec fn includes_status_spec(a: Args, commit_status: Option<Seq<char>>) -> bool {
    if a.no_status {
        false
    } else if a.status {
        true
    } else {
        match commit_status {
            None => true,
            Some(v) => {
                let t = lower(trim(v));
                !(t == "false"@ || t == "no"@ || t == "off"@ || t == "0"@)
            },
        }
    }
}

/// Whether the commit template shows the status, given the `commit.status` setting if any.
pub fn template_includes_status(args: &Args, commit_status: Option<&str>) -> (r: bool)
    ensures
        r == includes_status_spec(
            *args,
            match commit_status {
                Some(v) => Some(v@),
                None => None,
            },
        ),
{
    if args.no_status {
        return false;
    }
    if args.status {
        return true;
    }
    match commit_status {
        None => true,
        Some(v) => {
            let c = chars_of(v);
            let (a, b) = trim_bounds(&c, 0, c.len());
            assert(c@.subrange(0, c@.len() as int) =~= c@);
            let t = lowercase_range(&c, a, b);
            !(eq_lit(&t, "false") || eq_lit(&t, "no") || eq_lit(&t, "off") || eq_lit(&t, "0"))
        },
    }
}


// ----- the change sections of `commit --dry-run` -----------------------------------------

/// One entry of a change section: a tab, the label, a colon and three spaces, the path, then
/// `suffix` (a submodule note, or nothing).
pub open spec fn status_line(label: Seq<char>, path: Seq<char>, suffix: Seq<char>) -> Seq<char> {
    "\t"@ + label + ":   "@ + path + suffix + "\n"@
}

pub open spec fn staged_view(es: Seq<(ChangeKind, String)>) -> Seq<(ChangeKind, Seq<char>)> {
    es.map_values(|e: (ChangeKind, String)| (e.0, e.1@))
}

pub open spec fn unstaged_view(es: Seq<(ChangeKind, String, String)>) -> Seq<(ChangeKind, Seq<char>, Seq<char>)> {
    es.map_values(|e: (ChangeKind, String, String)| (e.0, e.1@, e.2@))
}

pub open spec fn staged_lines(es: Seq<(ChangeKind, Seq<char>)>) -> Seq<char>
    decreases es.len(),
{
    if es.len() == 0 {
        Seq::empty()
    } else {
        staged_lines(es.drop_last()) + status_line(staged_label_spec(es.last().0), es.last().1, Seq::empty())
    }
}

pub open spec fn unstaged_lines(es: Seq<(ChangeKind, Seq<char>, Seq<char>)>) -> Seq<char>
    decreases es.len(),
{
    if es.len() == 0 {
        Seq::empty()
    } else {
        unstaged_lines(es.drop_last()) + status_line(unstaged_label_spec(es.last().0), es.last().1, es.last().2)
    }
}

pub open spec fn staged_header(amend: bool) -> Seq<char> {
    "Changes to be committed:\n"@ + if amend {
        "  (use \"git restore --source=HEAD^1 --staged <file>...\" to unstage)\n"@
    } else {
        "  (use \"git restore --staged <file>...\" to unstage)\n"@
    }
}

pub open spec fn unstaged_header(dirty_submodules: bool) -> Seq<char> {
    "Changes not staged for commit:\n"@ + "  (use \"git add <file>...\" to update what will be committed)\n"@
        + "  (use \"git restore <file>...\" to discard changes in working directory)\n"@ + if dirty_submodules {
        "  (commit or discard the untracked or modified content in submodules)\n"@
    } else {
        Seq::<char>::empty()
    }
}

fn push_lit(out: &mut Vec<char>, s: &str)
    ensures
        final(out)@ == old(out)@ + s@,
{
    let v = chars_of(s);
    push_all(out, &v);
}

/// The "Changes to be committed" section of `commit --dry-run`, with its hint (which names
/// `HEAD^1` when amending) and one line per staged change.
pub fn staged_changes_section(entries: &[(ChangeKind, String)], amend: bool) -> (r: String)
    ensures
        r@ == staged_header(amend) + staged_lines(staged_view(entries@)),
{
    let mut out: Vec<char> = Vec::new();
    push_lit(&mut out, "Changes to be committed:\n");
    if amend {
        push_lit(&mut out, "  (use \"git restore --source=HEAD^1 --staged <file>...\" to unstage)\n");
    } else {
        push_lit(&mut out, "  (use \"git restore --staged <file>...\" to unstage)\n");
    }
    let ghost head = out@;
    assert(head =~= staged_header(amend));
    let ghost ev = staged_view(entries@);
    let mut i: usize = 0;
    assert(head + staged_lines(ev.take(0)) =~= head);
    while i < entries.len()
        invariant
            ev == staged_view(entries@),
            i <= entries@.len(),
            out@ == head + staged_lines(ev.take(i as int)),
        decreases entries@.len() - i,
    {
        let ghost before = out@;
        let label = status_label_staged(entries[i].0);
        push_lit(&mut out, "\t");
        push_lit(&mut out, label);
        push_lit(&mut out, ":   ");
        push_lit(&mut out, entries[i].1.as_str());
        push_lit(&mut out, "\n");
        assert(ev.take(i + 1).drop_last() =~= ev.take(i as int));
        assert(ev.take(i + 1).last() == ev[i as int]);
        assert(out@ =~= before + status_line(staged_label_spec(ev[i as int].0), ev[i as int].1, Seq::empty()));
        i = i + 1;
    }
    assert(ev.take(ev.len() as int) =~= ev);
    string_all(&out)
}

/// The "Changes not staged for commit" section of `commit --dry-run`: its hints (one more
/// when a submodule has untracked or modified content) and one line per change, each path
/// followed by its submodule note.
pub fn unstaged_changes_section(entries: &[(ChangeKind, String, String)], dirty_submodules: bool) -> (r: String)
    ensures
        r@ == unstaged_header(dirty_submodules) + unstaged_lines(unstaged_view(entries@)),
{
    let mut out: Vec<char> = Vec::new();
    push_lit(&mut out, "Changes not staged for commit:\n");
    push_lit(&mut out, "  (use \"git add <file>...\" to update what will be committed)\n");
    push_lit(&mut out, "  (use \"git restore <file>...\" to discard changes in working directory)\n");
    if dirty_submodules {
        push_lit(&mut out, "  (commit or discard the untracked or modified content in submodules)\n");
    }
    let ghost head = out@;
    assert(head =~= unstaged_header(dirty_submodules));
    let ghost ev = unstaged_view(entries@);
    let mut i: usize = 0;
    assert(head + unstaged_lines(ev.take(0)) =~= head);
    while i < entries.len()
        invariant
            ev == unstaged_view(entries@),
            i <= entries@.len(),
            out@ == head + unstaged_lines(ev.take(i as int)),
        decreases entries@.len() - i,
    {
        let ghost before = out@;
        let label = status_label_unstaged(entries[i].0);
        push_lit(&mut out, "\t");
        push_lit(&mut out, label);
        push_lit(&mut out, ":   ");
        push_lit(&mut out, entries[i].1.as_str());
        push_lit(&mut out, entries[i].2.as_str());
        push_lit(&mut out, "\n");
        assert(ev.take(i + 1).drop_last() =~= ev.take(i as int));
        assert(ev.take(i + 1).last() == ev[i as int]);
        assert(out@ =~= before + status_line(unstaged_label_spec(ev[i as int].0), ev[i as int].1, ev[i as int].2));
        i = i + 1;
    }
    assert(ev.take(ev.len() as int) =~= ev);
    string_all(&out)
}

} // verus!
