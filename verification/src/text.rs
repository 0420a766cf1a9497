//! Character-level text model: the specifications of the few string operations the commands
//! rely on (trimming, searching, line splitting), and verified executable helpers for them.
use vstd::prelude::*;
use vstd::utf8::{encode_scalar, encode_utf8};

verus! {

/// Appends one character to a string (`String::push`).
#[verifier::external_body]
pub(crate) fn push_char(s: &mut String, c: char)
    ensures
        final(s)@ == old(s)@.push(c),
{
    s.push(c);
}

/// The character sequences of a list of strings.
pub open spec fn views(v: Seq<String>) -> Seq<Seq<char>> {
    v.map_values(|s: String| s@)
}

pub proof fn lemma_views_push(v: Seq<String>, s: String)
    ensures
        views(v.push(s)) == views(v).push(s@),
{
    assert(views(v.push(s)) =~= views(v).push(s@));
}

/// `s` holds exactly the characters of `lit`.
pub fn eq_lit(s: &[char], lit: &str) -> (r: bool)
    ensures
        r == (s@ == lit@),
{
    let w = chars_of(lit);
    seq_eq(s, &w)
}

/// `s` starts with the characters of `lit`.
pub fn starts_lit(s: &[char], lit: &str) -> (r: bool)
    ensures
        r == starts_with(s@, lit@),
{
    let w = chars_of(lit);
    has_prefix(s, &w)
}

/// `a` is the token `lit` (kept opaque so that long chains of token tests stay cheap to check).
#[verifier::opaque]
pub open spec fn tok(a: Seq<char>, lit: Seq<char>) -> bool {
    a == lit
}

/// `a` starts with `lit` (opaque, like [`tok`]).
#[verifier::opaque]
pub open spec fn tok_prefix(a: Seq<char>, lit: Seq<char>) -> bool {
    starts_with(a, lit)
}

pub fn is_tok(s: &[char], lit: &str) -> (r: bool)
    ensures
        r == tok(s@, lit@),
{
    reveal(tok);
    eq_lit(s, lit)
}

pub fn is_tok_chars(s: &[char], w: &[char]) -> (r: bool)
    ensures
        r == tok(s@, w@),
{
    reveal(tok);
    seq_eq(s, w)
}

pub fn has_tok_prefix(s: &[char], lit: &str) -> (r: bool)
    ensures
        r == tok_prefix(s@, lit@),
        r ==> lit@.len() <= s@.len(),
{
    reveal(tok_prefix);
    starts_lit(s, lit)
}

// ----- character classes -------------------------------------------------------------

/// Unicode `White_Space` (what `char::is_whitespace` and `str::trim` use).
pub open spec fn is_ws(c: char) -> bool {
    ||| c == ' ' || c == '\t' || c == '\n' || c == '\x0B' || c == '\x0C' || c == '\r'
    ||| c == '\u{85}' || c == '\u{A0}' || c == '\u{1680}'
    ||| ('\u{2000}' <= c && c <= '\u{200A}')
    ||| c == '\u{2028}' || c == '\u{2029}' || c == '\u{202F}' || c == '\u{205F}' || c == '\u{3000}'
}

/// ASCII whitespace as `char::is_ascii_whitespace` / `u8::is_ascii_whitespace` define it.
pub open spec fn is_ascii_ws(c: char) -> bool {
    c == ' ' || c == '\t' || c == '\n' || c == '\x0C' || c == '\r'
}

pub open spec fn is_digit(c: char) -> bool {
    '0' <= c && c <= '9'
}

pub open spec fn is_hex_digit(c: char) -> bool {
    ('0' <= c && c <= '9') || ('a' <= c && c <= 'f') || ('A' <= c && c <= 'F')
}

pub open spec fn is_alpha(c: char) -> bool {
    ('a' <= c && c <= 'z') || ('A' <= c && c <= 'Z')
}

pub fn char_is_ws(c: char) -> (r: bool)
    ensures
        r == is_ws(c),
{
    c == ' ' || c == '\t' || c == '\n' || c == '\x0B' || c == '\x0C' || c == '\r' || c == '\u{85}'
        || c == '\u{A0}' || c == '\u{1680}' || ('\u{2000}' <= c && c <= '\u{200A}') || c
        == '\u{2028}' || c == '\u{2029}' || c == '\u{202F}' || c == '\u{205F}' || c == '\u{3000}'
}

pub fn char_is_ascii_ws(c: char) -> (r: bool)
    ensures
        r == is_ascii_ws(c),
{
    c == ' ' || c == '\t' || c == '\n' || c == '\x0C' || c == '\r'
}

pub fn char_is_digit(c: char) -> (r: bool)
    ensures
        r == is_digit(c),
{
    '0' <= c && c <= '9'
}

pub fn char_is_hex_digit(c: char) -> (r: bool)
    ensures
        r == is_hex_digit(c),
{
    ('0' <= c && c <= '9') || ('a' <= c && c <= 'f') || ('A' <= c && c <= 'F')
}

// ----- sequences of characters -------------------------------------------------------

/// Every character of `s` satisfies `f`.
pub open spec fn all_chars(s: Seq<char>, f: spec_fn(char) -> bool) -> bool {
    forall|i: int| 0 <= i < s.len() ==> #[trigger] f(s[i])
}

/// Every character of `s` is an ASCII digit.
pub open spec fn all_digits(s: Seq<char>) -> bool {
    forall|i: int| 0 <= i < s.len() ==> #[trigger] is_digit(s[i])
}

/// Every character of `s` is an ASCII hex digit.
pub open spec fn all_hex(s: Seq<char>) -> bool {
    forall|i: int| 0 <= i < s.len() ==> #[trigger] is_hex_digit(s[i])
}

/// `p` is a prefix of `s` (`str::starts_with`).
pub open spec fn starts_with(s: Seq<char>, p: Seq<char>) -> bool {
    p.len() <= s.len() && s.subrange(0, p.len() as int) == p
}

/// `p` is a suffix of `s` (`str::ends_with`).
pub open spec fn ends_with(s: Seq<char>, p: Seq<char>) -> bool {
    p.len() <= s.len() && s.subrange(s.len() - p.len(), s.len() as int) == p
}

/// `p` occurs in `s` at position `i`.
pub open spec fn occurs_at(s: Seq<char>, p: Seq<char>, i: int) -> bool {
    0 <= i && i + p.len() <= s.len() && s.subrange(i, i + p.len()) == p
}

/// `s` contains `p` (`str::contains`).
pub open spec fn contains_seq(s: Seq<char>, p: Seq<char>) -> bool {
    exists|i: int| #[trigger] occurs_at(s, p, i)
}

/// First occurrence of `p` in `s` at or after `i` (`str::find`).
pub open spec fn find_from(s: Seq<char>, p: Seq<char>, i: int) -> Option<int>
    decreases s.len() + 1 - i,
{
    if i < 0 || i + p.len() > s.len() {
        None
    } else if occurs_at(s, p, i) {
        Some(i)
    } else {
        find_from(s, p, i + 1)
    }
}

pub open spec fn find(s: Seq<char>, p: Seq<char>) -> Option<int> {
    find_from(s, p, 0)
}

/// Last occurrence of `p` in `s` starting at or before `i` (`str::rfind`).
pub open spec fn rfind_upto(s: Seq<char>, p: Seq<char>, i: int) -> Option<int>
    decreases i + 1,
{
    if i < 0 {
        None
    } else if occurs_at(s, p, i) {
        Some(i)
    } else {
        rfind_upto(s, p, i - 1)
    }
}

pub open spec fn rfind(s: Seq<char>, p: Seq<char>) -> Option<int> {
    rfind_upto(s, p, s.len() - p.len())
}

/// Number of leading characters of `s` that satisfy `f`.
pub open spec fn lead_len(s: Seq<char>, f: spec_fn(char) -> bool) -> nat
    decreases s.len(),
{
    if s.len() > 0 && f(s[0]) {
        1 + lead_len(s.drop_first(), f)
    } else {
        0
    }
}

/// Length of `s` once its trailing characters that satisfy `f` are cut.
pub open spec fn kept_len(s: Seq<char>, f: spec_fn(char) -> bool) -> nat
    decreases s.len(),
{
    if s.len() > 0 && f(s.last()) {
        kept_len(s.drop_last(), f)
    } else {
        s.len()
    }
}

/// `s` without its leading characters that satisfy `f` (`str::trim_start_matches`).
pub open spec fn trim_start_by(s: Seq<char>, f: spec_fn(char) -> bool) -> Seq<char> {
    s.subrange(lead_len(s, f) as int, s.len() as int)
}

/// `s` without its trailing characters that satisfy `f` (`str::trim_end_matches`).
pub open spec fn trim_end_by(s: Seq<char>, f: spec_fn(char) -> bool) -> Seq<char> {
    s.subrange(0, kept_len(s, f) as int)
}

pub open spec fn ws() -> spec_fn(char) -> bool {
    |c: char| is_ws(c)
}

/// `str::trim_end`.
pub open spec fn trim_end(s: Seq<char>) -> Seq<char> {
    trim_end_by(s, ws())
}

/// `str::trim_start`.
pub open spec fn trim_start(s: Seq<char>) -> Seq<char> {
    trim_start_by(s, ws())
}

/// `str::trim`.
pub open spec fn trim(s: Seq<char>) -> Seq<char> {
    trim_end(trim_start(s))
}

/// `s` with a final `\r` removed, if any.
pub open spec fn strip_cr(s: Seq<char>) -> Seq<char> {
    if s.len() > 0 && s.last() == '\r' {
        s.drop_last()
    } else {
        s
    }
}

/// Position of the first `c` in `s`, or `s.len()` when there is none.
pub open spec fn pos_of(s: Seq<char>, c: char) -> nat
    decreases s.len(),
{
    if s.len() == 0 {
        0
    } else if s[0] == c {
        0
    } else {
        1 + pos_of(s.drop_first(), c)
    }
}

pub proof fn lemma_pos_of(s: Seq<char>, c: char)
    ensures
        pos_of(s, c) <= s.len(),
        pos_of(s, c) < s.len() ==> s[pos_of(s, c) as int] == c,
        forall|j: int| 0 <= j < pos_of(s, c) ==> s[j] != c,
    decreases s.len(),
{
    if s.len() > 0 && s[0] != c {
        lemma_pos_of(s.drop_first(), c);
        assert forall|j: int| 0 <= j < pos_of(s, c) implies s[j] != c by {
            if j > 0 {
                assert(s.drop_first()[j - 1] == s[j]);
            }
        }
    }
}

/// `pos_of` is the first position holding `c` (or the length when none does).
pub proof fn lemma_pos_of_eq(s: Seq<char>, c: char, k: int)
    requires
        0 <= k <= s.len(),
        k < s.len() ==> s[k] == c,
        forall|j: int| 0 <= j < k ==> s[j] != c,
    ensures
        pos_of(s, c) == k,
    decreases s.len(),
{
    if s.len() > 0 && k > 0 {
        assert forall|j: int| 0 <= j < k - 1 implies s.drop_first()[j] != c by {
            assert(s[j + 1] != c);
        }
        lemma_pos_of_eq(s.drop_first(), c, k - 1);
    }
}

/// `str::lines`: split after each `\n`, dropping the `\n` and a `\r` just before it; a final
/// line without `\n` is kept as it is, and no empty line follows a final `\n`.
pub open spec fn lines(s: Seq<char>) -> Seq<Seq<char>>
    decreases s.len(),
{
    if s.len() == 0 {
        Seq::empty()
    } else {
        let i = pos_of(s, '\n') as int;
        proof {
            lemma_pos_of(s, '\n');
        }
        if i == s.len() {
            seq![s]
        } else {
            seq![strip_cr(s.subrange(0, i))] + lines(s.subrange(i + 1, s.len() as int))
        }
    }
}

/// `str::split_inclusive('\n')`: the pieces of `s`, each ending after a `\n` except maybe the last.
pub open spec fn pieces(s: Seq<char>) -> Seq<Seq<char>>
    decreases s.len(),
{
    if s.len() == 0 {
        Seq::empty()
    } else {
        let i = pos_of(s, '\n') as int;
        proof {
            lemma_pos_of(s, '\n');
        }
        if i == s.len() {
            seq![s]
        } else {
            seq![s.subrange(0, i + 1)] + pieces(s.subrange(i + 1, s.len() as int))
        }
    }
}

/// The pieces joined with `sep` in between (`[&str]::join`).
pub open spec fn join(parts: Seq<Seq<char>>, sep: Seq<char>) -> Seq<char>
    decreases parts.len(),
{
    if parts.len() == 0 {
        Seq::empty()
    } else if parts.len() == 1 {
        parts[0]
    } else {
        join(parts.drop_last(), sep) + sep + parts.last()
    }
}

/// Value of a digit character.
pub open spec fn digit_val(c: char) -> nat {
    ((c as u32) - ('0' as u32)) as nat
}

/// Decimal value of a string of digits.
pub open spec fn dec_val(s: Seq<char>) -> nat
    decreases s.len(),
{
    if s.len() == 0 {
        0
    } else {
        dec_val(s.drop_last()) * 10 + digit_val(s.last())
    }
}

// ----- lemmas ---

pub proof fn lemma_all_digits_push(s: Seq<char>, c: char)
    ensures
        all_digits(s.push(c)) == (all_digits(s) && is_digit(c)),
{
    if all_digits(s.push(c)) {
        assert(s.push(c)[s.len() as int] == c);
        assert forall|i: int| 0 <= i < s.len() implies #[trigger] is_digit(s[i]) by {
            assert(s.push(c)[i] == s[i]);
        }
    }
    if all_digits(s) && is_digit(c) {
        assert forall|i: int| 0 <= i < s.push(c).len() implies #[trigger] is_digit(s.push(c)[i]) by {
            if i < s.len() {
                assert(s.push(c)[i] == s[i]);
            }
        }
    }
}

pub proof fn lemma_find_from_props(s: Seq<char>, p: Seq<char>, i: int)
    requires
        0 <= i,
    ensures
        match find_from(s, p, i) {
            Some(k) => i <= k && occurs_at(s, p, k) && forall|j: int|
                i <= j < k ==> !#[trigger] occurs_at(s, p, j),
            None => forall|j: int| i <= j ==> !#[trigger] occurs_at(s, p, j),
        },
    decreases s.len() + 1 - i,
{
    if i + p.len() > s.len() {
    } else if !occurs_at(s, p, i) {
        lemma_find_from_props(s, p, i + 1);
    }
}

pub proof fn lemma_rfind_upto_props(s: Seq<char>, p: Seq<char>, i: int)
    ensures
        match rfind_upto(s, p, i) {
            Some(k) => k <= i && occurs_at(s, p, k) && forall|j: int|
                k < j <= i ==> !#[trigger] occurs_at(s, p, j),
            None => forall|j: int| j <= i ==> !#[trigger] occurs_at(s, p, j),
        },
    decreases i + 1,
{
    if i >= 0 && !occurs_at(s, p, i) {
        lemma_rfind_upto_props(s, p, i - 1);
    }
}

// ----- executable helpers ------------------------------------------------------------

/// The characters of a string slice, in order.
pub fn chars_of(s: &str) -> (v: Vec<char>)
    ensures
        v@ == s@,
{
    let n = s.unicode_len();
    let mut v: Vec<char> = Vec::new();
    let mut i: usize = 0;
    while i < n
        invariant
            n == s@.len(),
            i <= n,
            v@ == s@.subrange(0, i as int),
        decreases n - i,
    {
        v.push(s.get_char(i));
        i = i + 1;
    }
    v
}

/// `v` holds the character `c` somewhere.
pub fn occurs_somewhere(v: &Vec<char>, c: char) -> (r: bool)
    ensures
        r == v@.contains(c),
{
    let mut i: usize = 0;
    while i < v.len()
        invariant
            i <= v@.len(),
            forall|j: int| 0 <= j < i ==> v@[j] != c,
        decreases v@.len() - i,
    {
        if v[i] == c {
            assert(v@[i as int] == c);
            return true;
        }
        i = i + 1;
    }
    false
}

/// A string holding the characters `v[lo..hi]`.
pub fn string_of(v: &[char], lo: usize, hi: usize) -> (s: String)
    requires
        lo <= hi <= v@.len(),
    ensures
        s@ == v@.subrange(lo as int, hi as int),
{
    let mut s = String::new();
    let mut i = lo;
    while i < hi
        invariant
            lo <= i <= hi <= v@.len(),
            s@ == v@.subrange(lo as int, i as int),
        decreases hi - i,
    {
        push_char(&mut s, v[i]);
        i = i + 1;
    }
    s
}

/// A string holding all of `v`.
pub fn string_all(v: &[char]) -> (s: String)
    ensures
        s@ == v@,
{
    assert(v@.subrange(0, v@.len() as int) =~= v@);
    string_of(v, 0, v.len())
}

/// Appends `v[lo..hi]` to `out`.
pub fn push_range(out: &mut Vec<char>, v: &[char], lo: usize, hi: usize)
    requires
        lo <= hi <= v@.len(),
    ensures
        final(out)@ == old(out)@ + v@.subrange(lo as int, hi as int),
{
    let mut i = lo;
    while i < hi
        invariant
            lo <= i <= hi <= v@.len(),
            out@ == old(out)@ + v@.subrange(lo as int, i as int),
        decreases hi - i,
    {
        out.push(v[i]);
        i = i + 1;
        assert(v@.subrange(lo as int, i as int) =~= v@.subrange(lo as int, i - 1) + seq![v@[i - 1]]);
    }
}

/// Appends all of `v` to `out`.
pub fn push_all(out: &mut Vec<char>, v: &[char])
    ensures
        final(out)@ == old(out)@ + v@,
{
    assert(v@.subrange(0, v@.len() as int) =~= v@);
    push_range(out, v, 0, v.len());
}

/// `v[lo..hi] == w`.
pub fn range_eq(v: &[char], lo: usize, hi: usize, w: &[char]) -> (r: bool)
    requires
        lo <= hi <= v@.len(),
    ensures
        r == (v@.subrange(lo as int, hi as int) == w@),
{
    if hi - lo != w.len() {
        return false;
    }
    let mut k: usize = 0;
    while k < w.len()
        invariant
            lo <= hi <= v@.len(),
            hi - lo == w@.len(),
            k <= w@.len(),
            forall|j: int| 0 <= j < k ==> v@[lo + j] == w@[j],
        decreases w@.len() - k,
    {
        if v[lo + k] != w[k] {
            assert(v@.subrange(lo as int, hi as int)[k as int] != w@[k as int]);
            return false;
        }
        k = k + 1;
    }
    assert(v@.subrange(lo as int, hi as int) =~= w@);
    true
}

/// `v == w`.
pub fn seq_eq(v: &[char], w: &[char]) -> (r: bool)
    ensures
        r == (v@ == w@),
{
    assert(v@.subrange(0, v@.len() as int) =~= v@);
    range_eq(v, 0, v.len(), w)
}

/// `w` occurs in `v` at `i`.
pub fn occurs(v: &[char], w: &[char], i: usize) -> (r: bool)
    ensures
        r == occurs_at(v@, w@, i as int),
{
    if i > v.len() || v.len() - i < w.len() {
        return false;
    }
    range_eq(v, i, i + w.len(), w)
}

/// `v` starts with `w`.
pub fn has_prefix(v: &[char], w: &[char]) -> (r: bool)
    ensures
        r == starts_with(v@, w@),
{
    if w.len() > v.len() {
        return false;
    }
    range_eq(v, 0, w.len(), w)
}

/// `v` ends with `w`.
pub fn has_suffix(v: &[char], w: &[char]) -> (r: bool)
    ensures
        r == ends_with(v@, w@),
{
    if w.len() > v.len() {
        return false;
    }
    range_eq(v, v.len() - w.len(), v.len(), w)
}

/// First occurrence of `w` in `v` at or after `from`.
pub fn find_at(v: &[char], w: &[char], from: usize) -> (r: Option<usize>)
    ensures
        match r {
            Some(k) => find_from(v@, w@, from as int) == Some(k as int),
            None => find_from(v@, w@, from as int) is None,
        },
{
    let mut i = from;
    while i <= v.len() && v.len() - i >= w.len()
        invariant
            from <= i,
            find_from(v@, w@, from as int) == find_from(v@, w@, i as int),
        decreases v@.len() + 1 - i,
    {
        if occurs(v, w, i) {
            return Some(i);
        }
        if i >= v.len() {
            assert(find_from(v@, w@, i + 1) is None);
            return None;
        }
        i = i + 1;
    }
    None
}

/// Last occurrence of `w` in `v`.
pub fn rfind_all(v: &[char], w: &[char]) -> (r: Option<usize>)
    ensures
        match r {
            Some(k) => rfind(v@, w@) == Some(k as int),
            None => rfind(v@, w@) is None,
        },
{
    if w.len() > v.len() {
        assert(rfind_upto(v@, w@, v@.len() - w@.len()) is None);
        return None;
    }
    let mut i = v.len() - w.len();
    loop
        invariant
            i <= v@.len() - w@.len(),
            rfind(v@, w@) == rfind_upto(v@, w@, i as int),
        decreases i,
    {
        if occurs(v, w, i) {
            return Some(i);
        }
        if i == 0 {
            assert(rfind_upto(v@, w@, -1) is None);
            return None;
        }
        i = i - 1;
    }
}

/// The lines of `v` (`str::lines`), as ranges of `v`.
#[verifier::spinoff_prover]
#[verifier::rlimit(30)]
pub fn split_lines(v: &[char]) -> (r: Vec<(usize, usize)>)
    ensures
        r@.len() == lines(v@).len(),
        forall|k: int|
            #![trigger r@[k]]
            0 <= k < r@.len() ==> r@[k].0 <= r@[k].1 <= v@.len() && v@.subrange(
                r@[k].0 as int,
                r@[k].1 as int,
            ) == lines(v@)[k],
{
    let n = v.len();
    let mut r: Vec<(usize, usize)> = Vec::new();
    let mut pos: usize = 0;
    let ghost mut done: Seq<Seq<char>> = Seq::empty();
    assert(v@.subrange(0, n as int) =~= v@);
    while pos < n
        invariant
            n == v@.len(),
            pos <= n,
            lines(v@) == done + lines(v@.subrange(pos as int, n as int)),
            r@.len() == done.len(),
            forall|k: int|
                #![trigger r@[k]]
                0 <= k < r@.len() ==> r@[k].0 <= r@[k].1 <= v@.len() && v@.subrange(
                    r@[k].0 as int,
                    r@[k].1 as int,
                ) == done[k],
        decreases n - pos,
    {
        let ghost rest = v@.subrange(pos as int, n as int);
        let mut j = pos;
        while j < n && v[j] != '\n'
            invariant
                pos <= j <= n,
                n == v@.len(),
                forall|q: int| pos <= q < j ==> v@[q] != '\n',
            decreases n - j,
        {
            j = j + 1;
        }
        proof {
            lemma_pos_of_eq(rest, '\n', j - pos);
        }
        if j == n {
            assert(lines(rest) == seq![rest]);
            r.push((pos, n));
            proof {
                done = done.push(rest);
                assert(v@.subrange(n as int, n as int) =~= Seq::<char>::empty());
                assert(lines(v@.subrange(n as int, n as int)) =~= Seq::<Seq<char>>::empty());
                assert(lines(v@) =~= done);
            }
            pos = n;
        } else {
            let e = if j > pos && v[j - 1] == '\r' { j - 1 } else { j };
            proof {
                let line = rest.subrange(0, j - pos);
                assert(rest.subrange(j - pos + 1, rest.len() as int) =~= v@.subrange(j + 1, n as int));
                assert(strip_cr(line) =~= v@.subrange(pos as int, e as int));
                done = done.push(strip_cr(line));
                assert(lines(v@) =~= done + lines(v@.subrange(j + 1, n as int)));
            }
            r.push((pos, e));
            pos = j + 1;
        }
    }
    assert(v@.subrange(n as int, n as int) =~= Seq::<char>::empty());
    assert(done =~= lines(v@));
    r
}

/// The pieces of `v` split after each `\n` (`str::split_inclusive('\n')`), as ranges of `v`.
#[verifier::spinoff_prover]
#[verifier::rlimit(30)]
pub fn split_pieces(v: &[char]) -> (r: Vec<(usize, usize)>)
    ensures
        r@.len() == pieces(v@).len(),
        forall|k: int|
            #![trigger r@[k]]
            0 <= k < r@.len() ==> r@[k].0 <= r@[k].1 <= v@.len() && v@.subrange(
                r@[k].0 as int,
                r@[k].1 as int,
            ) == pieces(v@)[k],
        forall|k: int| 0 <= k < r@.len() ==> #[trigger] r@[k].0 == if k == 0 { 0 } else { r@[k - 1].1 as int },
        r@.len() > 0 ==> r@[r@.len() - 1].1 == v@.len(),
        r@.len() == 0 ==> v@.len() == 0,
{
    let n = v.len();
    let mut r: Vec<(usize, usize)> = Vec::new();
    let mut pos: usize = 0;
    let ghost mut done: Seq<Seq<char>> = Seq::empty();
    assert(v@.subrange(0, n as int) =~= v@);
    while pos < n
        invariant
            n == v@.len(),
            pos <= n,
            pieces(v@) == done + pieces(v@.subrange(pos as int, n as int)),
            r@.len() == done.len(),
            forall|k: int|
                #![trigger r@[k]]
                0 <= k < r@.len() ==> r@[k].0 <= r@[k].1 <= v@.len() && v@.subrange(
                    r@[k].0 as int,
                    r@[k].1 as int,
                ) == done[k],
            forall|k: int| 0 <= k < r@.len() ==> #[trigger] r@[k].0 == if k == 0 { 0 } else { r@[k - 1].1 as int },
            r@.len() > 0 ==> r@[r@.len() - 1].1 == pos,
            r@.len() == 0 ==> pos == 0,
        decreases n - pos,
    {
        let ghost rest = v@.subrange(pos as int, n as int);
        let mut j = pos;
        while j < n && v[j] != '\n'
            invariant
                pos <= j <= n,
                n == v@.len(),
                forall|q: int| pos <= q < j ==> v@[q] != '\n',
            decreases n - j,
        {
            j = j + 1;
        }
        proof {
            lemma_pos_of_eq(rest, '\n', j - pos);
        }
        let e = if j == n { n } else { j + 1 };
        proof {
            if j == n {
                assert(pieces(rest) == seq![rest]);
                assert(v@.subrange(n as int, n as int) =~= Seq::<char>::empty());
                assert(pieces(v@.subrange(n as int, n as int)) =~= Seq::<Seq<char>>::empty());
                assert(rest =~= v@.subrange(pos as int, e as int));
                assert(pieces(v@) =~= done.push(rest) + pieces(v@.subrange(e as int, n as int)));
            } else {
                assert(rest.subrange(j - pos + 1, rest.len() as int) =~= v@.subrange(j + 1, n as int));
                assert(rest.subrange(0, j - pos + 1) =~= v@.subrange(pos as int, e as int));
                assert(pieces(v@) =~= done.push(v@.subrange(pos as int, e as int)) + pieces(v@.subrange(e as int, n as int)));
            }
            done = done.push(v@.subrange(pos as int, e as int));
        }
        r.push((pos, e));
        pos = e;
    }
    assert(v@.subrange(n as int, n as int) =~= Seq::<char>::empty());
    assert(done =~= pieces(v@));
    r
}

/// Decimal value of the digits `v[lo..hi]`, or `None` when it exceeds `usize::MAX`.
pub fn parse_decimal(v: &[char], lo: usize, hi: usize) -> (r: Option<usize>)
    requires
        lo <= hi <= v@.len(),
        all_digits(v@.subrange(lo as int, hi as int)),
    ensures
        match r {
            Some(n) => n == dec_val(v@.subrange(lo as int, hi as int)),
            None => dec_val(v@.subrange(lo as int, hi as int)) > usize::MAX,
        },
{
    let mut acc: usize = 0;
    let mut i = lo;
    while i < hi
        invariant
            lo <= i <= hi <= v@.len(),
            all_digits(v@.subrange(lo as int, hi as int)),
            acc == dec_val(v@.subrange(lo as int, i as int)),
        decreases hi - i,
    {
        let c = v[i];
        assert(v@.subrange(lo as int, hi as int)[i - lo] == c);
        assert(is_digit(c));
        let d = (c as u32 - '0' as u32) as usize;
        assert(v@.subrange(lo as int, i + 1).drop_last() =~= v@.subrange(lo as int, i as int));
        let m = acc.checked_mul(10);
        match m {
            None => {
                proof {
                    lemma_dec_val_grows(v@, lo as int, i + 1, hi as int);
                }
                return None;
            },
            Some(m) => {
                match m.checked_add(d) {
                    None => {
                        proof {
                            lemma_dec_val_grows(v@, lo as int, i + 1, hi as int);
                        }
                        return None;
                    },
                    Some(x) => {
                        acc = x;
                    },
                }
            },
        }
        i = i + 1;
    }
    Some(acc)
}

/// Appending digits never makes a decimal value smaller.
pub proof fn lemma_dec_val_grows(v: Seq<char>, lo: int, i: int, hi: int)
    requires
        0 <= lo <= i <= hi <= v.len(),
    ensures
        dec_val(v.subrange(lo, i)) <= dec_val(v.subrange(lo, hi)),
    decreases hi - i,
{
    if i < hi {
        lemma_dec_val_grows(v, lo, i + 1, hi);
        assert(v.subrange(lo, i + 1).drop_last() =~= v.subrange(lo, i));
    }
}

/// Number of leading whitespace characters (Unicode) of `v[lo..hi]`.
pub fn ws_lead(v: &[char], lo: usize, hi: usize) -> (n: usize)
    requires
        lo <= hi <= v@.len(),
    ensures
        n == lead_len(v@.subrange(lo as int, hi as int), ws()),
{
    let mut i = hi;
    let mut n: usize = 0;
    // scan from the right, tracking the lead length of the suffix v[i..hi]
    while i > lo
        invariant
            lo <= i <= hi <= v@.len(),
            n == lead_len(v@.subrange(i as int, hi as int), ws()),
            n <= hi - i,
        decreases i,
    {
        let c = v[i - 1];
        let ghost s = v@.subrange(i - 1, hi as int);
        assert(s.drop_first() =~= v@.subrange(i as int, hi as int));
        assert(s[0] == c);
        if char_is_ws(c) {
            n = n + 1;
        } else {
            n = 0;
        }
        i = i - 1;
    }
    n
}

/// Length of `v[lo..hi]` without its trailing whitespace (Unicode).
pub fn ws_kept(v: &[char], lo: usize, hi: usize) -> (n: usize)
    requires
        lo <= hi <= v@.len(),
    ensures
        n == kept_len(v@.subrange(lo as int, hi as int), ws()),
        n <= hi - lo,
{
    let mut e = hi;
    while e > lo && char_is_ws(v[e - 1])
        invariant
            lo <= e <= hi <= v@.len(),
            kept_len(v@.subrange(lo as int, hi as int), ws()) == kept_len(
                v@.subrange(lo as int, e as int),
                ws(),
            ),
        decreases e,
    {
        let ghost s = v@.subrange(lo as int, e as int);
        assert(s.drop_last() =~= v@.subrange(lo as int, e - 1));
        e = e - 1;
    }
    e - lo
}

/// The bounds of `v[lo..hi]` once trimmed on both sides (`str::trim`).
pub fn trim_bounds(v: &[char], lo: usize, hi: usize) -> (r: (usize, usize))
    requires
        lo <= hi <= v@.len(),
    ensures
        lo <= r.0 <= r.1 <= hi,
        v@.subrange(r.0 as int, r.1 as int) == trim(v@.subrange(lo as int, hi as int)),
{
    let a = ws_lead(v, lo, hi);
    proof {
        lemma_lead_len_le(v@.subrange(lo as int, hi as int), ws());
    }
    let s = lo + a;
    let k = ws_kept(v, s, hi);
    proof {
        let t = v@.subrange(lo as int, hi as int);
        assert(trim_start(t) =~= v@.subrange(s as int, hi as int));
        assert(trim(t) =~= v@.subrange(s as int, (s + k) as int));
    }
    (s, s + k)
}

pub proof fn lemma_lead_len_le(s: Seq<char>, f: spec_fn(char) -> bool)
    ensures
        lead_len(s, f) <= s.len(),
        forall|i: int| 0 <= i < lead_len(s, f) ==> #[trigger] f(s[i]),
        lead_len(s, f) < s.len() ==> !f(s[lead_len(s, f) as int]),
    decreases s.len(),
{
    if s.len() > 0 && f(s[0]) {
        lemma_lead_len_le(s.drop_first(), f);
        assert forall|i: int| 0 <= i < lead_len(s, f) implies #[trigger] f(s[i]) by {
            if i > 0 {
                assert(s.drop_first()[i - 1] == s[i]);
            }
        }
    }
}

pub proof fn lemma_kept_len_le(s: Seq<char>, f: spec_fn(char) -> bool)
    ensures
        kept_len(s, f) <= s.len(),
        forall|i: int| kept_len(s, f) <= i < s.len() ==> #[trigger] f(s[i]),
        kept_len(s, f) > 0 ==> !f(s[kept_len(s, f) - 1]),
    decreases s.len(),
{
    if s.len() > 0 && f(s.last()) {
        lemma_kept_len_le(s.drop_last(), f);
        assert forall|i: int| kept_len(s, f) <= i < s.len() implies #[trigger] f(s[i]) by {
            if i < s.len() - 1 {
                assert(s.drop_last()[i] == s[i]);
            }
        }
    }
}

// ----- UTF-8 byte offsets ------------------------------------------------------------

/// Length in bytes of the UTF-8 encoding of `s` (the byte offsets that `str` methods use).
pub open spec fn byte_len(s: Seq<char>) -> nat {
    encode_utf8(s).len()
}

pub proof fn lemma_encode_utf8_push(s: Seq<char>, c: char)
    ensures
        encode_utf8(s.push(c)) == encode_utf8(s) + encode_scalar(c as u32),
    decreases s.len(),
{
    if s.len() == 0 {
        assert(s.push(c).drop_first() =~= Seq::<char>::empty());
        assert(encode_utf8(s.push(c)) =~= encode_scalar(c as u32) + encode_utf8(Seq::<char>::empty()));
        assert(encode_utf8(s) =~= Seq::<u8>::empty());
        assert(encode_utf8(s.push(c)) =~= encode_utf8(s) + encode_scalar(c as u32));
    } else {
        lemma_encode_utf8_push(s.drop_first(), c);
        assert(s.push(c).drop_first() =~= s.drop_first().push(c));
        assert(encode_utf8(s.push(c)) =~= encode_utf8(s) + encode_scalar(c as u32));
    }
}

/// Byte offsets grow with the number of characters taken.
pub proof fn lemma_byte_len_take(s: Seq<char>, j: int)
    requires
        0 <= j < s.len(),
    ensures
        byte_len(s.take(j + 1)) == byte_len(s.take(j)) + encode_scalar(s[j] as u32).len(),
        encode_scalar(s[j] as u32).len() >= 1,
{
    assert(s.take(j + 1) =~= s.take(j).push(s[j]));
    lemma_encode_utf8_push(s.take(j), s[j]);
}

pub proof fn lemma_byte_len_mono(s: Seq<char>, i: int, j: int)
    requires
        0 <= i <= j <= s.len(),
    ensures
        byte_len(s.take(i)) + (j - i) <= byte_len(s.take(j)),
    decreases j - i,
{
    if i < j {
        lemma_byte_len_mono(s, i, j - 1);
        lemma_byte_len_take(s, j - 1);
    }
}

/// Number of bytes in the UTF-8 encoding of `c` (`char::len_utf8`).
pub fn utf8_width(c: char) -> (n: usize)
    ensures
        n == encode_scalar(c as u32).len(),
        1 <= n <= 4,
{
    proof {
        vstd::utf8::char_is_scalar(c);
    }
    let u = c as u32;
    if u < 0x80 {
        1
    } else if u < 0x800 {
        2
    } else if u < 0x10000 {
        3
    } else {
        4
    }
}

/// The index of the character at whose start the byte offset `b` falls, when `b` is a
/// character boundary of `v` (its end included).
pub fn char_index_at_byte(v: &[char], b: usize) -> (r: Option<usize>)
    ensures
        match r {
            Some(k) => k <= v@.len() && byte_len(v@.take(k as int)) == b,
            None => forall|k: int| 0 <= k <= v@.len() ==> #[trigger] byte_len(v@.take(k)) != b,
        },
{
    let mut k: usize = 0;
    let mut off: usize = 0;
    assert(v@.take(0) =~= Seq::<char>::empty());
    while k < v.len() && off < b
        invariant
            k <= v@.len(),
            off <= b,
            off == byte_len(v@.take(k as int)),
            forall|j: int| 0 <= j < k ==> #[trigger] byte_len(v@.take(j)) < off,
        decreases v@.len() - k,
    {
        let w = utf8_width(v[k]);
        proof {
            lemma_byte_len_take(v@, k as int);
        }
        if w > b - off {
            assert forall|j: int| 0 <= j <= v@.len() implies #[trigger] byte_len(v@.take(j)) != b by {
                if j > k {
                    lemma_byte_len_mono(v@, k + 1, j);
                }
            }
            return None;
        }
        off = off + w;
        k = k + 1;
    }
    if off == b {
        Some(k)
    } else {
        assert forall|j: int| 0 <= j <= v@.len() implies #[trigger] byte_len(v@.take(j)) != b by {
            if j > k {
                lemma_byte_len_mono(v@, k as int, j);
            }
        }
        None
    }
}

// ----- numbers and case ----------------------------------------------------------------

/// `v[lo..hi]`, all digits, as a `u64`, or `None` when the value does not fit.
pub fn parse_decimal_u64(v: &[char], lo: usize, hi: usize) -> (r: Option<u64>)
    requires
        lo <= hi <= v@.len(),
        all_digits(v@.subrange(lo as int, hi as int)),
    ensures
        match r {
            Some(n) => n == dec_val(v@.subrange(lo as int, hi as int)),
            None => dec_val(v@.subrange(lo as int, hi as int)) > u64::MAX,
        },
{
    let mut acc: u64 = 0;
    let mut i = lo;
    while i < hi
        invariant
            lo <= i <= hi <= v@.len(),
            all_digits(v@.subrange(lo as int, hi as int)),
            acc == dec_val(v@.subrange(lo as int, i as int)),
        decreases hi - i,
    {
        let c = v[i];
        assert(v@.subrange(lo as int, hi as int)[i - lo] == c);
        assert(is_digit(c));
        let d = (c as u32 - '0' as u32) as u64;
        assert(v@.subrange(lo as int, i + 1).drop_last() =~= v@.subrange(lo as int, i as int));
        match acc.checked_mul(10) {
            None => {
                proof {
                    lemma_dec_val_grows(v@, lo as int, i + 1, hi as int);
                }
                return None;
            },
            Some(m) => match m.checked_add(d) {
                None => {
                    proof {
                        lemma_dec_val_grows(v@, lo as int, i + 1, hi as int);
                    }
                    return None;
                },
                Some(x) => {
                    acc = x;
                },
            },
        }
        i = i + 1;
    }
    Some(acc)
}

/// Whether `v[lo..hi]` is all digits.
pub fn range_all_digits(v: &[char], lo: usize, hi: usize) -> (r: bool)
    requires
        lo <= hi <= v@.len(),
    ensures
        r == all_digits(v@.subrange(lo as int, hi as int)),
{
    let mut k = lo;
    while k < hi
        invariant
            lo <= k <= hi <= v@.len(),
            all_digits(v@.subrange(lo as int, k as int)),
        decreases hi - k,
    {
        if !char_is_digit(v[k]) {
            assert(v@.subrange(lo as int, hi as int)[k - lo] == v@[k as int]);
            return false;
        }
        assert(v@.subrange(lo as int, k + 1) =~= v@.subrange(lo as int, k as int).push(v@[k as int]));
        proof {
            lemma_all_digits_push(v@.subrange(lo as int, k as int), v@[k as int]);
        }
        k = k + 1;
    }
    true
}

/// The integer that `s` writes in decimal, with an optional `+` or `-` sign (what
/// `str::parse::<i64>` reads, before its range check).
pub open spec fn int_text(s: Seq<char>) -> Option<int> {
    if s.len() > 0 && (s[0] == '-' || s[0] == '+') {
        let d = s.drop_first();
        if d.len() > 0 && all_digits(d) {
            Some(if s[0] == '-' { -(dec_val(d) as int) } else { dec_val(d) as int })
        } else {
            None
        }
    } else if s.len() > 0 && all_digits(s) {
        Some(dec_val(s) as int)
    } else {
        None
    }
}

/// `str::parse::<i64>` on `v[lo..hi]`: `Some` exactly when the text is a signed decimal
/// integer within the range of `i64`.
pub fn parse_i64(v: &[char], lo: usize, hi: usize) -> (r: Option<i64>)
    requires
        lo <= hi <= v@.len(),
    ensures
        match r {
            Some(n) => int_text(v@.subrange(lo as int, hi as int)) == Some(n as int),
            None => match int_text(v@.subrange(lo as int, hi as int)) {
                Some(x) => x < i64::MIN || x > i64::MAX,
                None => true,
            },
        },
{
    let ghost s = v@.subrange(lo as int, hi as int);
    if lo == hi {
        return None;
    }
    let signed = v[lo] == '-' || v[lo] == '+';
    let start = if signed { lo + 1 } else { lo };
    assert(s.drop_first() =~= v@.subrange(lo + 1, hi as int));
    if start == hi || !range_all_digits(v, start, hi) {
        return None;
    }
    match parse_decimal_u64(v, start, hi) {
        None => None,
        Some(mag) => {
            if v[lo] == '-' {
                if mag <= 9223372036854775807u64 {
                    Some(-(mag as i64))
                } else if mag == 9223372036854775808u64 {
                    Some(i64::MIN)
                } else {
                    None
                }
            } else if mag <= 9223372036854775807u64 {
                Some(mag as i64)
            } else {
                None
            }
        },
    }
}

pub open spec fn lower_char(c: char) -> char {
    if 'A' <= c && c <= 'Z' {
        ((c as u32) + 32) as char
    } else {
        c
    }
}

/// `str::to_ascii_lowercase`.
pub open spec fn lower(s: Seq<char>) -> Seq<char> {
    s.map_values(|c: char| lower_char(c))
}

/// `v[lo..hi]` with ASCII letters in lower case.
pub fn lowercase_range(v: &[char], lo: usize, hi: usize) -> (r: Vec<char>)
    requires
        lo <= hi <= v@.len(),
    ensures
        r@ == lower(v@.subrange(lo as int, hi as int)),
{
    let mut r: Vec<char> = Vec::new();
    let mut k = lo;
    while k < hi
        invariant
            lo <= k <= hi <= v@.len(),
            r@ == lower(v@.subrange(lo as int, k as int)),
        decreases hi - k,
    {
        let c = v[k];
        let d = if 'A' <= c && c <= 'Z' {
            ((c as u8) + 32) as char
        } else {
            c
        };
        assert(d == lower_char(c));
        r.push(d);
        assert(lower(v@.subrange(lo as int, k + 1)) =~= lower(v@.subrange(lo as int, k as int)).push(lower_char(c)));
        k = k + 1;
    }
    r
}

// ----- decimal text ------------------------------------------------------------------

pub open spec fn digit_char(d: nat) -> char {
    ((('0' as u32) + d) as u32) as char
}

/// The decimal digits of `n` (`format!("{n}")` for an unsigned integer).
pub open spec fn nat_text(n: nat) -> Seq<char>
    decreases n,
{
    if n < 10 {
        seq![digit_char(n)]
    } else {
        nat_text(n / 10).push(digit_char(n % 10))
    }
}

/// `format!("{n}")` for a signed integer.
pub open spec fn int_text_of(n: int) -> Seq<char> {
    if n < 0 {
        seq!['-'] + nat_text((-n) as nat)
    } else {
        nat_text(n as nat)
    }
}

/// `s` padded on the left with `0` to at least `w` characters.
pub open spec fn zero_pad(s: Seq<char>, w: nat) -> Seq<char> {
    if s.len() >= w {
        s
    } else {
        Seq::new((w - s.len()) as nat, |i: int| '0') + s
    }
}

fn digit_of(d: u64) -> (c: char)
    requires
        d < 10,
    ensures
        c == digit_char(d as nat),
{
    let b: u8 = 48u8 + (d as u8);
    let c = b as char;
    assert(c == digit_char(d as nat)) by {
        assert((b as char) as u32 == b as u32);
    }
    c
}

/// Appends the decimal digits of `n`.
pub fn push_u64_text(out: &mut Vec<char>, n: u64)
    ensures
        final(out)@ == old(out)@ + nat_text(n as nat),
    decreases n,
{
    if n < 10 {
        out.push(digit_of(n));
    } else {
        push_u64_text(out, n / 10);
        out.push(digit_of(n % 10));
    }
    assert(out@ =~= old(out)@ + nat_text(n as nat));
}

/// Appends `n` in decimal, with a `-` when negative.
pub fn push_i64_text(out: &mut Vec<char>, n: i64)
    ensures
        final(out)@ == old(out)@ + int_text_of(n as int),
{
    if n < 0 {
        out.push('-');
        let m: u64 = ((-(n + 1)) as u64) + 1;
        assert(m == -(n as int));
        push_u64_text(out, m);
    } else {
        push_u64_text(out, n as u64);
    }
    assert(out@ =~= old(out)@ + int_text_of(n as int));
}

/// Appends the decimal digits of `n`, padded with `0` to two characters.
pub fn push_u64_text_pad2(out: &mut Vec<char>, n: u64)
    ensures
        final(out)@ == old(out)@ + zero_pad(nat_text(n as nat), 2),
{
    if n < 10 {
        out.push('0');
        out.push(digit_of(n));
        assert(nat_text(n as nat) =~= seq![digit_char(n as nat)]);
        assert(zero_pad(nat_text(n as nat), 2) =~= seq!['0', digit_char(n as nat)]);
    } else {
        push_u64_text(out, n);
        assert(nat_text(n as nat).len() >= 2) by {
            assert(nat_text(n as nat) == nat_text(n as nat / 10).push(digit_char(n as nat % 10)));
            lemma_nat_text_nonempty(n as nat / 10);
        }
    }
    assert(out@ =~= old(out)@ + zero_pad(nat_text(n as nat), 2));
}

pub proof fn lemma_nat_text_nonempty(n: nat)
    ensures
        nat_text(n).len() >= 1,
    decreases n,
{
    if n >= 10 {
        lemma_nat_text_nonempty(n / 10);
    }
}

/// The decimal text of `n` is made of digits and reads back as `n`.
pub proof fn lemma_nat_text_value(n: nat)
    ensures
        all_digits(nat_text(n)),
        dec_val(nat_text(n)) == n,
    decreases n,
{
    if n < 10 {
        let s = nat_text(n);
        assert(s.drop_last() =~= Seq::<char>::empty());
        assert(dec_val(s.drop_last()) == 0);
        assert(s.last() == digit_char(n));
        assert(digit_val(digit_char(n)) == n);
        assert(dec_val(s) == dec_val(s.drop_last()) * 10 + digit_val(s.last()));
    } else {
        lemma_nat_text_value(n / 10);
        lemma_all_digits_push(nat_text(n / 10), digit_char(n % 10));
        let t = nat_text(n);
        assert(t.drop_last() =~= nat_text(n / 10));
        assert(t.last() == digit_char(n % 10));
        assert(digit_val(digit_char(n % 10)) == n % 10);
        assert(dec_val(t) == dec_val(t.drop_last()) * 10 + digit_val(t.last()));
        assert((n / 10) * 10 + n % 10 == n) by (nonlinear_arith);
    }
}

// ----- lines of concatenated text ----------------------------------------------------

/// Text that is empty or ends with a line break.
pub open spec fn nl_terminated(s: Seq<char>) -> bool {
    s.len() == 0 || s.last() == '\n'
}

/// Splitting into lines distributes over text that ends at a line break.
pub proof fn lemma_lines_append(x: Seq<char>, y: Seq<char>)
    requires
        nl_terminated(x),
    ensures
        lines(x + y) == lines(x) + lines(y),
    decreases x.len(),
{
    if x.len() == 0 {
        assert(x + y =~= y);
        assert(lines(x) + lines(y) =~= lines(y));
    } else {
        let s = x + y;
        lemma_pos_of(x, '\n');
        let i = pos_of(x, '\n') as int;
        if i == x.len() {
            assert(x[x.len() - 1] == '\n');
        }
        assert(i < x.len());
        assert forall|j: int| 0 <= j < i implies s[j] != '\n' by {
            assert(s[j] == x[j]);
        }
        lemma_pos_of_eq(s, '\n', i);
        let x2 = x.subrange(i + 1, x.len() as int);
        assert(s.subrange(0, i) =~= x.subrange(0, i));
        assert(s.subrange(i + 1, s.len() as int) =~= x2 + y);
        if x2.len() > 0 {
            assert(x2.last() == x.last());
        }
        lemma_lines_append(x2, y);
        assert(lines(s) =~= lines(x) + lines(y));
    }
}

/// Text without whitespace at either end.
pub open spec fn no_edge_ws(s: Seq<char>) -> bool {
    s.len() == 0 || (!is_ws(s[0]) && !is_ws(s.last()))
}

/// Trimming leaves text without whitespace at its ends unchanged.
pub proof fn lemma_trim_no_edge_ws(s: Seq<char>)
    requires
        no_edge_ws(s),
    ensures
        trim(s) == s,
        trim_start(s) == s,
        trim_end(s) == s,
{
    if s.len() > 0 {
        assert(lead_len(s, ws()) == 0);
        assert(kept_len(s, ws()) == s.len());
    }
    assert(trim_start(s) =~= s);
    assert(trim_end(s) =~= s);
}

/// Trimming twice is trimming once.
pub proof fn lemma_trim_idempotent(s: Seq<char>)
    ensures
        trim(trim(s)) == trim(s),
        no_edge_ws(trim(s)),
{
    let t0 = trim_start(s);
    lemma_lead_len_le(s, ws());
    lemma_kept_len_le(t0, ws());
    let t = trim(s);
    if t.len() > 0 {
        assert(t[0] == t0[0]);
        assert(t.last() == t0[kept_len(t0, ws()) - 1]);
    }
    lemma_trim_no_edge_ws(t);
}

/// First occurrence: `find_from` gives `k` when `p` occurs at `k` and nowhere in `i..k`.
pub proof fn lemma_find_from_exact(s: Seq<char>, p: Seq<char>, i: int, k: int)
    requires
        0 <= i <= k,
        occurs_at(s, p, k),
        forall|j: int| i <= j < k ==> !occurs_at(s, p, j),
    ensures
        find_from(s, p, i) == Some(k),
    decreases k - i,
{
    if i < k {
        lemma_find_from_exact(s, p, i + 1, k);
    }
}

/// Byte offset `b` falls on a character boundary of `s` (its end included).
pub open spec fn is_boundary(s: Seq<char>, b: int) -> bool {
    exists|k: int| 0 <= k <= s.len() && #[trigger] byte_len(s.take(k)) == b
}

/// The character index at byte offset `b` of `s` (meaningful when `is_boundary(s, b)`).
pub open spec fn char_at_byte(s: Seq<char>, b: int) -> int {
    choose|k: int| 0 <= k <= s.len() && #[trigger] byte_len(s.take(k)) == b
}

pub proof fn lemma_char_at_byte(s: Seq<char>, k: int, b: int)
    requires
        0 <= k <= s.len(),
        byte_len(s.take(k)) == b,
    ensures
        is_boundary(s, b),
        char_at_byte(s, b) == k,
{
    assert(is_boundary(s, b));
    let c = char_at_byte(s, b);
    if c < k {
        lemma_byte_len_mono(s, c + 1, k);
        lemma_byte_len_take(s, c);
    } else if c > k {
        lemma_byte_len_mono(s, k + 1, c);
        lemma_byte_len_take(s, k);
    }
}

} // verus!
