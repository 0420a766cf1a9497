//! Commit message cleanup (`strbuf_stripspace` and its relatives), over characters for text
//! and over bytes for messages that are not valid UTF-8.
use vstd::prelude::*;
use crate::text::{
    byte_len, char_index_at_byte, char_is_ascii_ws, chars_of, find, find_at, has_prefix, has_suffix, is_ascii_ws,
    lemma_find_from_props, lines, occurs_at, pieces, push_all, push_range, split_lines, split_pieces,
    starts_with, string_all, string_of, trim, trim_bounds, trim_end, ws_kept,
};

verus! {

// ----- the model, for any element type ------------------------------------------------

/// Index just past the line that starts at `i`: after its terminator `nl`, or the end of `s`.
pub open spec fn line_end<T>(s: Seq<T>, i: int, nl: T) -> int
    decreases s.len() - i,
{
    if i >= s.len() {
        s.len() as int
    } else if s[i] == nl {
        i + 1
    } else {
        line_end(s, i + 1, nl)
    }
}

/// `line` without the trailing elements that satisfy `ws`.
pub open spec fn trim_trailing<T>(line: Seq<T>, ws: spec_fn(T) -> bool) -> Seq<T>
    decreases line.len(),
{
    if line.len() > 0 && ws(line.last()) {
        trim_trailing(line.drop_last(), ws)
    } else {
        line
    }
}

/// `s` without the leading elements that satisfy `f`.
pub open spec fn drop_leading<T>(s: Seq<T>, f: spec_fn(T) -> bool) -> Seq<T>
    decreases s.len(),
{
    if s.len() > 0 && f(s[0]) {
        drop_leading(s.drop_first(), f)
    } else {
        s
    }
}

/// `p` is a prefix of `s`.
pub open spec fn has_lead<T>(s: Seq<T>, p: Seq<T>) -> bool {
    p.len() <= s.len() && s.take(p.len() as int) == p
}

/// One line of the cleanup. A comment line vanishes; a line with nothing but whitespace is
/// counted as blank; a line with content is written without its trailing whitespace and with
/// a terminator, after a single blank line when blank lines separate it from earlier content.
pub open spec fn cleanup_step<T>(
    out: Seq<T>,
    blanks: nat,
    line: Seq<T>,
    comment: bool,
    nl: T,
    ws: spec_fn(T) -> bool,
) -> (Seq<T>, nat) {
    if comment {
        (out, blanks)
    } else {
        let c = trim_trailing(line, ws);
        if c.len() > 0 {
            let sep = if blanks > 0 && out.len() > 0 {
                seq![nl]
            } else {
                Seq::<T>::empty()
            };
            (out + sep + c.push(nl), 0)
        } else {
            (out, blanks + 1)
        }
    }
}

/// The cleanup of the lines of `s` from index `i` on, given the output so far and the number
/// of blank lines seen since the last line with content.
pub open spec fn cleanup_from<T>(
    s: Seq<T>,
    i: int,
    out: Seq<T>,
    blanks: nat,
    comment: spec_fn(Seq<T>) -> bool,
    nl: T,
    ws: spec_fn(T) -> bool,
) -> Seq<T>
    decreases s.len() - i,
{
    if i < 0 || i >= s.len() {
        out
    } else {
        let e = line_end(s, i, nl);
        proof {
            lemma_line_end(s, i, nl);
        }
        let line = s.subrange(i, e);
        let st = cleanup_step(out, blanks, line, comment(line), nl, ws);
        cleanup_from(s, e, st.0, st.1, comment, nl, ws)
    }
}

pub proof fn lemma_line_end<T>(s: Seq<T>, i: int, nl: T)
    requires
        0 <= i < s.len(),
    ensures
        i < line_end(s, i, nl) <= s.len(),
        forall|j: int| i <= j < line_end(s, i, nl) - 1 ==> s[j] != nl,
        line_end(s, i, nl) == s.len() || s[line_end(s, i, nl) - 1] == nl,
    decreases s.len() - i,
{
    if s[i] == nl {
    } else if i + 1 < s.len() {
        lemma_line_end(s, i + 1, nl);
        assert(line_end(s, i, nl) == line_end(s, i + 1, nl));
    } else {
        assert(line_end(s, i + 1, nl) == s.len());
    }
}

/// The ASCII whitespace bytes (`u8::is_ascii_whitespace`).
pub open spec fn is_ascii_ws_byte(b: u8) -> bool {
    b == 32 || b == 9 || b == 10 || b == 12 || b == 13
}

pub open spec fn ascii_ws_chars() -> spec_fn(char) -> bool {
    |c: char| is_ascii_ws(c)
}

pub open spec fn ascii_ws_bytes() -> spec_fn(u8) -> bool {
    |b: u8| is_ascii_ws_byte(b)
}

/// A text line is a comment when it starts with the comment prefix (an empty prefix makes
/// every line a comment).
pub open spec fn text_comment(prefix: Seq<char>) -> spec_fn(Seq<char>) -> bool {
    |l: Seq<char>| has_lead(l, prefix)
}

/// A byte line is a comment when the prefix is not empty and starts it.
pub open spec fn byte_comment(prefix: Seq<u8>) -> spec_fn(Seq<u8>) -> bool {
    |l: Seq<u8>| prefix.len() > 0 && has_lead(l, prefix)
}

/// `strbuf_stripspace` with a comment prefix, over text.
pub open spec fn stripspace(message: Seq<char>, prefix: Seq<char>) -> Seq<char> {
    cleanup_from(message, 0, Seq::empty(), 0, text_comment(prefix), '\n', ascii_ws_chars())
}

/// `strbuf_stripspace` with a comment prefix, over bytes.
pub open spec fn stripspace_bytes(message: Seq<u8>, prefix: Seq<u8>) -> Seq<u8> {
    cleanup_from(message, 0, Seq::empty(), 0, byte_comment(prefix), 10u8, ascii_ws_bytes())
}

pub open spec fn is_vertical_lead(c: char) -> bool {
    c == '\n' || c == '\r'
}

pub open spec fn is_vertical_trail(c: char) -> bool {
    c == '\n' || c == '\r' || c == ' ' || c == '\t'
}

/// Leading `\n`/`\r` and trailing `\n`/`\r`/space/tab removed.
pub open spec fn vertical_lead() -> spec_fn(char) -> bool {
    |c: char| is_vertical_lead(c)
}

pub open spec fn vertical_trail() -> spec_fn(char) -> bool {
    |c: char| is_vertical_trail(c)
}

pub open spec fn vertical_lead_byte() -> spec_fn(u8) -> bool {
    |b: u8| b == 10 || b == 13
}

pub open spec fn vertical_trail_byte() -> spec_fn(u8) -> bool {
    |b: u8| b == 10 || b == 13 || b == 32 || b == 9
}

pub open spec fn vertical_stripspace(s: Seq<char>) -> Seq<char> {
    trim_trailing(drop_leading(s, vertical_lead()), vertical_trail())
}

pub open spec fn vertical_stripspace_bytes(s: Seq<u8>) -> Seq<u8> {
    trim_trailing(drop_leading(s, vertical_lead_byte()), vertical_trail_byte())
}

// ----- executable text cleanup ---------------------------------------------------------

/// Index just past the line of `v` that starts at `i`.
fn next_line_end(v: &[char], i: usize) -> (e: usize)
    requires
        i < v@.len(),
    ensures
        e == line_end(v@, i as int, '\n'),
{
    let mut j = i;
    while j < v.len() && v[j] != '\n'
        invariant
            i <= j <= v@.len(),
            line_end(v@, j as int, '\n') == line_end(v@, i as int, '\n'),
        decreases v@.len() - j,
    {
        j = j + 1;
    }
    if j < v.len() {
        j + 1
    } else {
        j
    }
}

/// `p` is a prefix of `v[lo..hi]`.
fn range_has_lead(v: &[char], lo: usize, hi: usize, p: &[char]) -> (r: bool)
    requires
        lo <= hi <= v@.len(),
    ensures
        r == has_lead(v@.subrange(lo as int, hi as int), p@),
{
    if p.len() > hi - lo {
        return false;
    }
    let mut k: usize = 0;
    while k < p.len()
        invariant
            p@.len() <= hi - lo,
            lo <= hi <= v@.len(),
            k <= p@.len(),
            forall|j: int| 0 <= j < k ==> v@[lo + j] == p@[j],
        decreases p@.len() - k,
    {
        if v[lo + k] != p[k] {
            assert(v@.subrange(lo as int, hi as int).take(p@.len() as int)[k as int] != p@[k as int]);
            return false;
        }
        k = k + 1;
    }
    assert(v@.subrange(lo as int, hi as int).take(p@.len() as int) =~= p@);
    true
}

/// End of `v[lo..hi]` once its trailing ASCII whitespace is removed.
fn trailing_ws_start(v: &[char], lo: usize, hi: usize) -> (k: usize)
    requires
        lo <= hi <= v@.len(),
    ensures
        lo <= k <= hi,
        v@.subrange(lo as int, k as int) == trim_trailing(v@.subrange(lo as int, hi as int), ascii_ws_chars()),
{
    let mut k = hi;
    while k > lo && char_is_ascii_ws(v[k - 1])
        invariant
            lo <= k <= hi <= v@.len(),
            trim_trailing(v@.subrange(lo as int, k as int), ascii_ws_chars()) == trim_trailing(
                v@.subrange(lo as int, hi as int),
                ascii_ws_chars(),
            ),
        decreases k,
    {
        assert(v@.subrange(lo as int, k as int).drop_last() =~= v@.subrange(lo as int, k - 1));
        k = k - 1;
    }
    k
}

/// Post-editor cleanup like Git's `strbuf_stripspace` with `comment_prefix`: lines that start
/// with the prefix are dropped, trailing whitespace is trimmed from each line, runs of blank
/// lines between paragraphs become one blank line, and leading and trailing blank lines go.
pub fn cleanup_edited_commit_message(message: &str, comment_prefix: &str) -> (r: String)
    ensures
        r@ == stripspace(message@, comment_prefix@),
{
    let m = chars_of(message);
    let p = chars_of(comment_prefix);
    let mut out: Vec<char> = Vec::new();
    let mut blanks: usize = 0;
    let mut i: usize = 0;
    while i < m.len()
        invariant
            i <= m@.len(),
            blanks <= i,
            cleanup_from(m@, i as int, out@, blanks as nat, text_comment(p@), '\n', ascii_ws_chars())
                == stripspace(message@, comment_prefix@),
            m@ == message@,
            p@ == comment_prefix@,
        decreases m@.len() - i,
    {
        let e = next_line_end(&m, i);
        proof {
            lemma_line_end(m@, i as int, '\n');
        }
        let ghost line = m@.subrange(i as int, e as int);
        let ghost st = cleanup_step(out@, blanks as nat, line, has_lead(line, p@), '\n', ascii_ws_chars());
        let comment = range_has_lead(&m, i, e, &p);
        if !comment {
            let k = trailing_ws_start(&m, i, e);
            if k > i {
                let ghost out0 = out@;
                if blanks > 0 && out.len() > 0 {
                    out.push('\n');
                }
                let ghost out1 = out@;
                blanks = 0;
                push_range(&mut out, &m, i, k);
                out.push('\n');
                assert(out@ =~= out1 + m@.subrange(i as int, k as int).push('\n'));
            } else {
                blanks = blanks + 1;
            }
        }
        assert(out@ == st.0 && blanks == st.1);
        i = e;
    }
    string_all(&out)
}

// ----- executable byte cleanup ---------------------------------------------------------

fn next_line_end_bytes(v: &[u8], i: usize) -> (e: usize)
    requires
        i < v@.len(),
    ensures
        e == line_end(v@, i as int, 10u8),
{
    let mut j = i;
    while j < v.len() && v[j] != 10u8
        invariant
            i <= j <= v@.len(),
            line_end(v@, j as int, 10u8) == line_end(v@, i as int, 10u8),
        decreases v@.len() - j,
    {
        j = j + 1;
    }
    if j < v.len() {
        j + 1
    } else {
        j
    }
}

fn range_has_lead_bytes(v: &[u8], lo: usize, hi: usize, p: &[u8]) -> (r: bool)
    requires
        lo <= hi <= v@.len(),
    ensures
        r == has_lead(v@.subrange(lo as int, hi as int), p@),
{
    if p.len() > hi - lo {
        return false;
    }
    let mut k: usize = 0;
    while k < p.len()
        invariant
            p@.len() <= hi - lo,
            lo <= hi <= v@.len(),
            k <= p@.len(),
            forall|j: int| 0 <= j < k ==> v@[lo + j] == p@[j],
        decreases p@.len() - k,
    {
        if v[lo + k] != p[k] {
            assert(v@.subrange(lo as int, hi as int).take(p@.len() as int)[k as int] != p@[k as int]);
            return false;
        }
        k = k + 1;
    }
    assert(v@.subrange(lo as int, hi as int).take(p@.len() as int) =~= p@);
    true
}

fn byte_is_ascii_ws(b: u8) -> (r: bool)
    ensures
        r == is_ascii_ws_byte(b),
{
    b == 32 || b == 9 || b == 10 || b == 12 || b == 13
}

fn trailing_ws_start_bytes(v: &[u8], lo: usize, hi: usize) -> (k: usize)
    requires
        lo <= hi <= v@.len(),
    ensures
        lo <= k <= hi,
        v@.subrange(lo as int, k as int) == trim_trailing(v@.subrange(lo as int, hi as int), ascii_ws_bytes()),
{
    let mut k = hi;
    while k > lo && byte_is_ascii_ws(v[k - 1])
        invariant
            lo <= k <= hi <= v@.len(),
            trim_trailing(v@.subrange(lo as int, k as int), ascii_ws_bytes()) == trim_trailing(
                v@.subrange(lo as int, hi as int),
                ascii_ws_bytes(),
            ),
        decreases k,
    {
        assert(v@.subrange(lo as int, k as int).drop_last() =~= v@.subrange(lo as int, k - 1));
        k = k - 1;
    }
    k
}

/// Appends `v[lo..hi]` to `out`.
fn push_byte_range(out: &mut Vec<u8>, v: &[u8], lo: usize, hi: usize)
    requires
        lo <= hi <= v@.len(),
    ensures
        final(out)@ == old(out)@ + v@.subrange(lo as int, hi as int),
{
    let mut i = lo;
    while i < hi
        invariant
            lo <= i <= hi <= v@.len(),
            out@ == old(out)@ + v@.subrange(lo as int, i as int),
        decreases hi - i,
    {
        out.push(v[i]);
        i = i + 1;
        assert(v@.subrange(lo as int, i as int) =~= v@.subrange(lo as int, i - 1) + seq![v@[i - 1]]);
    }
}

/// Byte-level twin of [`cleanup_edited_commit_message`] for messages that are not valid UTF-8:
/// comment lines are dropped only when the prefix is not empty.
pub fn cleanup_edited_commit_message_bytes(bytes: &[u8], comment_prefix: &[u8]) -> (r: Vec<u8>)
    ensures
        r@ == stripspace_bytes(bytes@, comment_prefix@),
{
    let mut out: Vec<u8> = Vec::new();
    let mut blanks: usize = 0;
    let mut i: usize = 0;
    while i < bytes.len()
        invariant
            i <= bytes@.len(),
            blanks <= i,
            cleanup_from(bytes@, i as int, out@, blanks as nat, byte_comment(comment_prefix@), 10u8, ascii_ws_bytes())
                == stripspace_bytes(bytes@, comment_prefix@),
        decreases bytes@.len() - i,
    {
        let e = next_line_end_bytes(bytes, i);
        proof {
            lemma_line_end(bytes@, i as int, 10u8);
        }
        let ghost line = bytes@.subrange(i as int, e as int);
        let ghost st = cleanup_step(
            out@,
            blanks as nat,
            line,
            comment_prefix@.len() > 0 && has_lead(line, comment_prefix@),
            10u8,
            ascii_ws_bytes(),
        );
        let comment = comment_prefix.len() > 0 && range_has_lead_bytes(bytes, i, e, comment_prefix);
        if !comment {
            let k = trailing_ws_start_bytes(bytes, i, e);
            if k > i {
                if blanks > 0 && out.len() > 0 {
                    out.push(10u8);
                }
                let ghost out1 = out@;
                blanks = 0;
                push_byte_range(&mut out, bytes, i, k);
                out.push(10u8);
                assert(out@ =~= out1 + bytes@.subrange(i as int, k as int).push(10u8));
            } else {
                blanks = blanks + 1;
            }
        }
        assert(out@ == st.0 && blanks == st.1);
        i = e;
    }
    out
}

/// Strips leading `\n`/`\r` and trailing `\n`/`\r`/space/tab (Git's whitespace-only cleanup).
pub fn git_vertical_stripspace(s: &str) -> (r: String)
    ensures
        r@ == vertical_stripspace(s@),
{
    let v = chars_of(s);
    let mut start: usize = 0;
    assert(v@.subrange(0, v@.len() as int) =~= v@);
    while start < v.len() && (v[start] == '\n' || v[start] == '\r')
        invariant
            start <= v@.len(),
            drop_leading(v@.subrange(start as int, v@.len() as int), vertical_lead())
                == drop_leading(v@, vertical_lead()),
        decreases v@.len() - start,
    {
        assert(v@.subrange(start as int, v@.len() as int).drop_first() =~= v@.subrange(start + 1, v@.len() as int));
        start = start + 1;
    }
    assert(v@.subrange(0, v@.len() as int) =~= v@);
    assert(drop_leading(v@, vertical_lead()) == v@.subrange(start as int, v@.len() as int));
    let mut end = v.len();
    while end > start && (v[end - 1] == '\n' || v[end - 1] == '\r' || v[end - 1] == ' ' || v[end - 1] == '\t')
        invariant
            start <= end <= v@.len(),
            trim_trailing(v@.subrange(start as int, end as int), vertical_trail())
                == vertical_stripspace(v@),
        decreases end,
    {
        assert(v@.subrange(start as int, end as int).drop_last() =~= v@.subrange(start as int, end - 1));
        end = end - 1;
    }
    let mut out: Vec<char> = Vec::new();
    push_range(&mut out, &v, start, end);
    string_all(&out)
}

/// Byte-level twin of [`git_vertical_stripspace`].
pub fn git_vertical_stripspace_bytes(bytes: &[u8]) -> (r: Vec<u8>)
    ensures
        r@ == vertical_stripspace_bytes(bytes@),
{
    let mut start: usize = 0;
    assert(bytes@.subrange(0, bytes@.len() as int) =~= bytes@);
    while start < bytes.len() && (bytes[start] == 10u8 || bytes[start] == 13u8)
        invariant
            start <= bytes@.len(),
            drop_leading(bytes@.subrange(start as int, bytes@.len() as int), vertical_lead_byte())
                == drop_leading(bytes@, vertical_lead_byte()),
        decreases bytes@.len() - start,
    {
        assert(bytes@.subrange(start as int, bytes@.len() as int).drop_first() =~= bytes@.subrange(start + 1, bytes@.len() as int));
        start = start + 1;
    }
    assert(bytes@.subrange(0, bytes@.len() as int) =~= bytes@);
    assert(drop_leading(bytes@, vertical_lead_byte()) == bytes@.subrange(start as int, bytes@.len() as int));
    let mut end = bytes.len();
    while end > start && (bytes[end - 1] == 10u8 || bytes[end - 1] == 13u8 || bytes[end - 1] == 32u8
        || bytes[end - 1] == 9u8)
        invariant
            start <= end <= bytes@.len(),
            trim_trailing(bytes@.subrange(start as int, end as int), vertical_trail_byte())
                == vertical_stripspace_bytes(bytes@),
        decreases end,
    {
        assert(bytes@.subrange(start as int, end as int).drop_last() =~= bytes@.subrange(start as int, end - 1));
        end = end - 1;
    }
    let mut out: Vec<u8> = Vec::new();
    push_byte_range(&mut out, bytes, start, end);
    assert(out@ =~= bytes@.subrange(start as int, end as int));
    out
}

// ----- what a cleanup guarantees -------------------------------------------------------

/// A cleaned message: empty, or ending with its terminator; it neither starts nor ends with a
/// blank line, never holds two blank lines in a row, and none of its lines ends in whitespace.
pub open spec fn is_tidy<T>(out: Seq<T>, nl: T, ws: spec_fn(T) -> bool) -> bool {
    &&& out.len() > 0 ==> out.last() == nl && out[0] != nl
    &&& out.len() > 1 ==> out[out.len() - 2] != nl
    &&& forall|i: int|
        #![trigger out[i]]
        0 < i < out.len() && out[i] == nl ==> out[i - 1] == nl || !ws(out[i - 1])
    &&& forall|i: int|
        #![trigger out[i]]
        0 < i && i + 1 < out.len() && out[i - 1] == nl && out[i] == nl ==> out[i + 1] != nl
}

pub proof fn lemma_trim_trailing<T>(line: Seq<T>, ws: spec_fn(T) -> bool)
    ensures
        trim_trailing(line, ws).len() <= line.len(),
        trim_trailing(line, ws) == line.take(trim_trailing(line, ws).len() as int),
        trim_trailing(line, ws).len() > 0 ==> !ws(trim_trailing(line, ws).last()),
    decreases line.len(),
{
    if line.len() > 0 && ws(line.last()) {
        lemma_trim_trailing(line.drop_last(), ws);
        let t = trim_trailing(line.drop_last(), ws);
        assert(line.drop_last().take(t.len() as int) =~= line.take(t.len() as int));
    } else {
        assert(line.take(line.len() as int) =~= line);
    }
}

proof fn lemma_step_tidy<T>(out: Seq<T>, blanks: nat, line: Seq<T>, comment: bool, nl: T, ws: spec_fn(T) -> bool)
    requires
        is_tidy(out, nl, ws),
        ws(nl),
        forall|j: int| 0 <= j < line.len() - 1 ==> line[j] != nl,
    ensures
        is_tidy(cleanup_step(out, blanks, line, comment, nl, ws).0, nl, ws),
{
    let c = trim_trailing(line, ws);
    lemma_trim_trailing(line, ws);
    if !comment && c.len() > 0 {
        let sep = if blanks > 0 && out.len() > 0 {
            seq![nl]
        } else {
            Seq::<T>::empty()
        };
        let n = out + sep + c.push(nl);
        let a = out.len() + sep.len();
        assert forall|j: int| 0 <= j < c.len() implies c[j] != nl by {
            assert(c[j] == line[j]);
            if j == line.len() - 1 {
                assert(c.last() == c[j]);
            }
        }
        assert(forall|j: int| 0 <= j < out.len() ==> n[j] == out[j]);
        assert(forall|j: int| 0 <= j < c.len() ==> #[trigger] c[j] == n[a + j]);
        assert(n[n.len() - 1] == nl);
        assert(n.len() > 1 ==> n[n.len() - 2] != nl) by {
            assert(n[n.len() - 2] == c[c.len() - 1]);
        }
        assert(sep.len() > 0 ==> n[out.len() as int] == nl && out.len() > 0);
        assert forall|i: int| 0 < i < n.len() && #[trigger] n[i] == nl implies n[i - 1] == nl || !ws(n[i - 1]) by {
            if i < out.len() {
                assert(n[i] == out[i] && n[i - 1] == out[i - 1]);
            } else if i < a {
                assert(n[i - 1] == out[out.len() - 1]);
            } else if i < a + c.len() {
                assert(n[i] == c[i - a]);
            } else {
                assert(n[i - 1] == c[c.len() - 1]);
            }
        }
        assert forall|i: int|
            0 < i && i + 1 < n.len() && n[i - 1] == nl && #[trigger] n[i] == nl implies n[i + 1] != nl by {
            if i + 1 < out.len() {
                assert(n[i] == out[i] && n[i - 1] == out[i - 1] && n[i + 1] == out[i + 1]);
            } else if i + 1 == out.len() {
                if sep.len() > 0 {
                    assert(n[i - 1] == out[out.len() - 2]);
                } else {
                    assert(n[i + 1] == c[0]);
                }
            } else if i + 1 < a {
                assert(false);
            } else if i + 1 < a + c.len() {
                assert(n[i + 1] == c[i + 1 - a]);
            } else {
                assert(n[i] == c[c.len() - 1]);
            }
        }
    }
}

proof fn lemma_cleanup_from_tidy<T>(
    s: Seq<T>,
    i: int,
    out: Seq<T>,
    blanks: nat,
    comment: spec_fn(Seq<T>) -> bool,
    nl: T,
    ws: spec_fn(T) -> bool,
)
    requires
        is_tidy(out, nl, ws),
        ws(nl),
    ensures
        is_tidy(cleanup_from(s, i, out, blanks, comment, nl, ws), nl, ws),
    decreases s.len() - i,
{
    if 0 <= i < s.len() {
        let e = line_end(s, i, nl);
        lemma_line_end(s, i, nl);
        let line = s.subrange(i, e);
        assert forall|j: int| 0 <= j < line.len() - 1 implies line[j] != nl by {
            assert(line[j] == s[i + j]);
        }
        lemma_step_tidy(out, blanks, line, comment(line), nl, ws);
        let st = cleanup_step(out, blanks, line, comment(line), nl, ws);
        lemma_cleanup_from_tidy(s, e, st.0, st.1, comment, nl, ws);
    }
}

/// A message after cleanup is empty or ends with a newline; it neither starts nor ends with a
/// blank line, never holds two blank lines in a row, and none of its lines ends in whitespace.
pub proof fn law_stripspace_is_tidy(message: Seq<char>, prefix: Seq<char>)
    ensures
        is_tidy(stripspace(message, prefix), '\n', ascii_ws_chars()),
{
    lemma_cleanup_from_tidy(message, 0, Seq::empty(), 0, text_comment(prefix), '\n', ascii_ws_chars());
}

/// The same holds of the byte-level cleanup.
pub proof fn law_stripspace_bytes_is_tidy(message: Seq<u8>, prefix: Seq<u8>)
    ensures
        is_tidy(stripspace_bytes(message, prefix), 10u8, ascii_ws_bytes()),
{
    lemma_cleanup_from_tidy(message, 0, Seq::empty(), 0, byte_comment(prefix), 10u8, ascii_ws_bytes());
}

/// No line of `out` starts with `p`.
pub open spec fn no_line_starts_with<T>(out: Seq<T>, p: Seq<T>, nl: T) -> bool {
    forall|i: int|
        #![trigger out.subrange(i, out.len() as int)]
        0 <= i < out.len() && (i == 0 || out[i - 1] == nl) ==> !has_lead(out.subrange(i, out.len() as int), p)
}

proof fn lemma_step_no_comment<T>(out: Seq<T>, blanks: nat, line: Seq<T>, p: Seq<T>, nl: T, ws: spec_fn(T) -> bool)
    requires
        is_tidy(out, nl, ws),
        ws(nl),
        no_line_starts_with(out, p, nl),
        p.len() > 0,
        forall|j: int| 0 <= j < p.len() ==> p[j] != nl,
        forall|j: int| 0 <= j < line.len() - 1 ==> line[j] != nl,
    ensures
        no_line_starts_with(cleanup_step(out, blanks, line, has_lead(line, p), nl, ws).0, p, nl),
{
    let c = trim_trailing(line, ws);
    lemma_trim_trailing(line, ws);
    if !has_lead(line, p) && c.len() > 0 {
        let sep = if blanks > 0 && out.len() > 0 {
            seq![nl]
        } else {
            Seq::<T>::empty()
        };
        let n = out + sep + c.push(nl);
        let a = out.len() + sep.len();
        assert forall|j: int| 0 <= j < c.len() implies c[j] != nl by {
            assert(c[j] == line[j]);
            if j == line.len() - 1 {
                assert(c.last() == c[j]);
            }
        }
        assert forall|i: int|
            0 <= i < n.len() && (i == 0 || n[i - 1] == nl) implies !has_lead(
                #[trigger] n.subrange(i, n.len() as int),
                p,
            ) by {
            if has_lead(n.subrange(i, n.len() as int), p) {
                assert forall|j: int| 0 <= j < p.len() implies n[i + j] == p[j] by {
                    assert(n.subrange(i, n.len() as int).take(p.len() as int)[j] == p[j]);
                }
                if i < out.len() {
                    if i + p.len() > out.len() {
                        let j0 = out.len() - 1 - i;
                        assert(n[i + j0] == p[j0]);
                        assert(n[out.len() - 1] == out[out.len() - 1]);
                    } else {
                        assert(out.subrange(i, out.len() as int).take(p.len() as int) =~= p) by {
                            assert forall|j: int| 0 <= j < p.len() implies out.subrange(
                                i,
                                out.len() as int,
                            ).take(p.len() as int)[j] == p[j] by {
                                assert(n[i + j] == out[i + j]);
                            }
                        }
                        if i > 0 {
                            assert(n[i - 1] == out[i - 1]);
                        }
                        assert(!has_lead(out.subrange(i, out.len() as int), p));
                    }
                } else if i < a {
                    assert(n[i] == nl);
                    assert(n[i + 0] == p[0]);
                } else if i == a {
                    if p.len() > c.len() {
                        let k = c.len() as int;
                        assert(n[a + k] == nl);
                        assert(n[i + k] == p[k]);
                    } else {
                        assert(line.take(p.len() as int) =~= p) by {
                            assert forall|j: int| 0 <= j < p.len() implies line.take(p.len() as int)[j] == p[j] by {
                                assert(n[a + j] == c[j]);
                                assert(c[j] == line[j]);
                            }
                        }
                    }
                } else {
                    assert(n[i - 1] == c[i - 1 - a]);
                }
            }
        }
    }
}

proof fn lemma_cleanup_from_no_comment<T>(
    s: Seq<T>,
    i: int,
    out: Seq<T>,
    blanks: nat,
    p: Seq<T>,
    comment: spec_fn(Seq<T>) -> bool,
    nl: T,
    ws: spec_fn(T) -> bool,
)
    requires
        is_tidy(out, nl, ws),
        ws(nl),
        no_line_starts_with(out, p, nl),
        p.len() > 0,
        forall|j: int| 0 <= j < p.len() ==> p[j] != nl,
        forall|l: Seq<T>| #[trigger] comment(l) == has_lead(l, p),
    ensures
        no_line_starts_with(cleanup_from(s, i, out, blanks, comment, nl, ws), p, nl),
    decreases s.len() - i,
{
    if 0 <= i < s.len() {
        let e = line_end(s, i, nl);
        lemma_line_end(s, i, nl);
        let line = s.subrange(i, e);
        assert forall|j: int| 0 <= j < line.len() - 1 implies line[j] != nl by {
            assert(line[j] == s[i + j]);
        }
        assert(comment(line) == has_lead(line, p));
        lemma_step_tidy(out, blanks, line, comment(line), nl, ws);
        lemma_step_no_comment(out, blanks, line, p, nl, ws);
        let st = cleanup_step(out, blanks, line, comment(line), nl, ws);
        lemma_cleanup_from_no_comment(s, e, st.0, st.1, p, comment, nl, ws);
    }
}

/// With a comment prefix that is not empty and holds no newline, no line of the cleaned
/// message starts with that prefix.
pub proof fn law_stripspace_drops_comments(message: Seq<char>, prefix: Seq<char>)
    requires
        prefix.len() > 0,
        !prefix.contains('\n'),
    ensures
        no_line_starts_with(stripspace(message, prefix), prefix, '\n'),
{
    assert forall|j: int| 0 <= j < prefix.len() implies prefix[j] != '\n' by {
        if prefix[j] == '\n' {
            assert(prefix.contains('\n'));
        }
    }
    lemma_cleanup_from_no_comment(message, 0, Seq::empty(), 0, prefix, text_comment(prefix), '\n', ascii_ws_chars());
}

/// Cleaning a tidy text whose lines are not comments gives it back: from a line start `i`,
/// with the blank line just before `i` (if any) still pending, the rest is copied unchanged.
proof fn lemma_cleanup_fixed<T>(
    r: Seq<T>,
    i: int,
    blanks: nat,
    comment: spec_fn(Seq<T>) -> bool,
    nl: T,
    ws: spec_fn(T) -> bool,
)
    requires
        is_tidy(r, nl, ws),
        ws(nl),
        0 <= i <= r.len(),
        i == 0 || r[i - 1] == nl,
        blanks == (if i >= 2 && r[i - 2] == nl { 1nat } else { 0nat }),
        forall|j: int|
            0 <= j < r.len() && (j == 0 || r[j - 1] == nl) ==> !comment(
                #[trigger] r.subrange(j, line_end(r, j, nl)),
            ),
    ensures
        cleanup_from(r, i, (if blanks == 1 { r.take(i - 1) } else { r.take(i) }), blanks, comment, nl, ws)
            == r,
    decreases r.len() - i,
{
    let out = if blanks == 1 { r.take(i - 1) } else { r.take(i) };
    if i == r.len() {
        if r.len() > 1 {
            assert(r[r.len() - 2] != nl);
        }
        if r.len() == 1 {
            assert(r[0] == r.last());
        }
        assert(r.take(i) =~= r);
    } else {
        let e = line_end(r, i, nl);
        lemma_line_end(r, i, nl);
        let line = r.subrange(i, e);
        assert(r[e - 1] == nl);
        assert(!comment(line));
        if r[i] == nl {
            assert(i != 0);
            assert(i >= 2) by {
                if i == 1 {
                    assert(r[0] == nl);
                }
            }
            if r[i - 2] == nl {
                assert(r[(i - 1) + 1] != nl);
            }
            assert(e == i + 1);
            assert(line.drop_last() =~= Seq::<T>::empty());
            assert(trim_trailing(line.drop_last(), ws) =~= Seq::<T>::empty());
            assert(trim_trailing(line, ws).len() == 0);
            assert(blanks == 0);
            lemma_cleanup_fixed(r, i + 1, 1, comment, nl, ws);
            assert(r.take((i + 1) - 1) =~= out);
        } else {
            assert(e - 1 > i);
            assert(r[e - 2] != nl);
            assert(!ws(r[e - 2])) by {
                assert(r[e - 1] == nl);
            }
            assert(line.last() == nl);
            assert(line.drop_last().last() == r[e - 2]);
            let c = line.drop_last();
            assert(trim_trailing(c, ws) == c);
            assert(trim_trailing(line, ws) == c);
            if blanks == 1 {
                assert(out + seq![nl] + c.push(nl) =~= r.take(e));
            } else {
                assert(out + c.push(nl) =~= r.take(e));
            }
            lemma_cleanup_fixed(r, e, 0, comment, nl, ws);
        }
    }
}

/// Cleaning a message twice is cleaning it once, for a comment prefix that does not end with
/// a line break.
pub proof fn law_stripspace_idempotent(message: Seq<char>, prefix: Seq<char>)
    requires
        prefix.len() == 0 || prefix.last() != '\n',
    ensures
        stripspace(stripspace(message, prefix), prefix) == stripspace(message, prefix),
{
    let r = stripspace(message, prefix);
    if prefix.len() == 0 {
        assert(prefix =~= Seq::<char>::empty());
        law_stripspace_empty_prefix(message);
        assert(r =~= Seq::<char>::empty());
    } else {
        law_stripspace_is_tidy(message, prefix);
        let comment = text_comment(prefix);
        if !prefix.contains('\n') {
            law_stripspace_drops_comments(message, prefix);
        }
        assert forall|j: int|
            0 <= j < r.len() && (j == 0 || r[j - 1] == '\n') implies !comment(
                #[trigger] r.subrange(j, line_end(r, j, '\n')),
            ) by {
            lemma_line_end(r, j, '\n');
            let line = r.subrange(j, line_end(r, j, '\n'));
            if has_lead(line, prefix) {
                if prefix.contains('\n') {
                    // a line break inside the prefix would have to end the line early
                    let k = choose|k: int| 0 <= k < prefix.len() && prefix[k] == '\n';
                    assert(k != prefix.len() - 1);
                    assert(line.take(prefix.len() as int)[k] == line[k]);
                    assert(line[k] == r[j + k]);
                } else {
                    let rest = r.subrange(j, r.len() as int);
                    assert(!has_lead(rest, prefix));
                    assert(rest.take(prefix.len() as int) =~= line.take(prefix.len() as int));
                }
            }
        }
        lemma_cleanup_fixed(r, 0, 0, comment, '\n', ascii_ws_chars());
        assert(r.take(0) =~= Seq::<char>::empty());
    }
}

/// With an empty comment prefix every line counts as a comment, so nothing is left.
pub proof fn law_stripspace_empty_prefix(message: Seq<char>)
    ensures
        stripspace(message, Seq::empty()).len() == 0,
{
    lemma_cleanup_from_all_comments(message, 0);
}

proof fn lemma_cleanup_from_all_comments(s: Seq<char>, i: int)
    ensures
        cleanup_from(s, i, Seq::empty(), 0, text_comment(Seq::empty()), '\n', ascii_ws_chars()).len() == 0,
    decreases s.len() - i,
{
    if 0 <= i < s.len() {
        let e = line_end(s, i, '\n');
        lemma_line_end(s, i, '\n');
        let line = s.subrange(i, e);
        assert(line.take(0) =~= Seq::<char>::empty());
        assert(text_comment(Seq::empty())(line));
        lemma_cleanup_from_all_comments(s, e);
    }
}

// ----- pieces of a message -------------------------------------------------------------

/// The first line of a message, without trailing whitespace.
pub open spec fn first_line_of(m: Seq<char>) -> Seq<char> {
    if lines(m).len() == 0 {
        Seq::empty()
    } else {
        trim_end(lines(m)[0])
    }
}

/// The first line of `message`, without trailing whitespace (empty for an empty message).
pub fn first_line(message: &str) -> (r: String)
    ensures
        r@ == first_line_of(message@),
{
    let v = chars_of(message);
    let ls = split_lines(&v);
    if ls.len() == 0 {
        return String::new();
    }
    let (lo, hi) = ls[0];
    let n = ws_kept(&v, lo, hi);
    assert(v@.subrange(lo as int, (lo + n) as int) =~= trim_end(v@.subrange(lo as int, hi as int)));
    string_of(&v, lo, lo + n)
}

/// What follows the first blank line (the first `"\n\n"`), or nothing.
pub open spec fn body_after_subject(m: Seq<char>) -> Seq<char> {
    match find(m, seq!['\n', '\n']) {
        Some(p) => m.subrange(p + 2, m.len() as int),
        None => Seq::empty(),
    }
}

/// The body of a commit message: what follows its first `"\n\n"`, or nothing.
pub fn message_body_after_subject(full: &str) -> (r: String)
    ensures
        r@ == body_after_subject(full@),
{
    let v = chars_of(full);
    let nn = vec!['\n', '\n'];
    assert(nn@ =~= seq!['\n', '\n']);
    match find_at(&v, &nn, 0) {
        Some(p) => {
            proof {
                lemma_find_from_props(v@, nn@, 0);
                assert(crate::text::occurs_at(v@, nn@, p as int));
            }
            let n = v.len();
            string_of(&v, p + 2, n)
        },
        None => String::new(),
    }
}

pub open spec fn is_newline() -> spec_fn(char) -> bool {
    |c: char| c == '\n'
}

/// `s` without its leading newlines.
pub fn skip_blank_lines(s: &str) -> (r: String)
    ensures
        r@ == drop_leading(s@, is_newline()),
{
    let v = chars_of(s);
    let mut k: usize = 0;
    assert(v@.subrange(0, v@.len() as int) =~= v@);
    while k < v.len() && v[k] == '\n'
        invariant
            k <= v@.len(),
            drop_leading(v@.subrange(k as int, v@.len() as int), is_newline()) == drop_leading(v@, is_newline()),
            v@ == s@,
        decreases v@.len() - k,
    {
        assert(v@.subrange(k as int, v@.len() as int).drop_first() =~= v@.subrange(k + 1, v@.len() as int));
        k = k + 1;
    }
    string_of(&v, k, v.len())
}

/// What follows the first newline, or nothing.
pub open spec fn after_first_line(m: Seq<char>) -> Seq<char> {
    match find(m, seq!['\n']) {
        Some(p) => m.subrange(p + 1, m.len() as int),
        None => Seq::empty(),
    }
}

/// What follows the first line of `message` (nothing when it has no newline).
pub fn message_after_first_line(message: &str) -> (r: String)
    ensures
        r@ == after_first_line(message@),
{
    let v = chars_of(message);
    let nl = vec!['\n'];
    assert(nl@ =~= seq!['\n']);
    match find_at(&v, &nl, 0) {
        Some(p) => {
            proof {
                lemma_find_from_props(v@, nl@, 0);
                assert(crate::text::occurs_at(v@, nl@, p as int));
            }
            let n = v.len();
            string_of(&v, p + 1, n)
        },
        None => String::new(),
    }
}

/// `s` with a newline added when it is not empty and does not end with one.
pub open spec fn with_trailing_newline(s: Seq<char>) -> Seq<char> {
    if s.len() == 0 || s.last() == '\n' {
        s
    } else {
        s.push('\n')
    }
}

pub fn ensure_trailing_newline(s: &str) -> (r: String)
    ensures
        r@ == with_trailing_newline(s@),
{
    let mut v = chars_of(s);
    if v.len() > 0 && v[v.len() - 1] != '\n' {
        v.push('\n');
    }
    string_all(&v)
}

/// A message counts as sign-offs only when it has a line that is not blank once trimmed,
/// and every such line starts with `Signed-off-by:`.
pub open spec fn signoffs_only(m: Seq<char>) -> bool {
    let ls = lines(m);
    &&& forall|k: int| 0 <= k < ls.len() ==> (#[trigger] crate::text::trim(ls[k])).len() == 0
        || starts_with(crate::text::trim(ls[k]), "Signed-off-by:"@)
    &&& exists|k: int| 0 <= k < ls.len() && (#[trigger] crate::text::trim(ls[k])).len() > 0
}

/// Whether `message` holds nothing but `Signed-off-by:` lines (and blank ones), and at least
/// one of them.
pub fn message_is_empty_or_signedoff_only(message: &str) -> (r: bool)
    ensures
        r == signoffs_only(message@),
{
    let v = chars_of(message);
    let sob = chars_of("Signed-off-by:");
    let ls = split_lines(&v);
    let ghost lsv = lines(v@);
    let mut saw = false;
    let mut k: usize = 0;
    while k < ls.len()
        invariant
            v@ == message@,
            sob@ == "Signed-off-by:"@,
            lsv == lines(v@),
            ls@.len() == lsv.len(),
            forall|j: int|
                #![trigger ls@[j]]
                0 <= j < ls@.len() ==> ls@[j].0 <= ls@[j].1 <= v@.len() && v@.subrange(
                    ls@[j].0 as int,
                    ls@[j].1 as int,
                ) == lsv[j],
            k <= ls@.len(),
            forall|j: int| 0 <= j < k ==> (#[trigger] crate::text::trim(lsv[j])).len() == 0
                || starts_with(crate::text::trim(lsv[j]), sob@),
            saw == exists|j: int| 0 <= j < k && (#[trigger] crate::text::trim(lsv[j])).len() > 0,
        decreases ls@.len() - k,
    {
        let (lo, hi) = ls[k];
        assert(v@.subrange(lo as int, hi as int) == lsv[k as int]);
        let (a, b) = crate::text::trim_bounds(&v, lo, hi);
        let ghost t = crate::text::trim(lsv[k as int]);
        assert(v@.subrange(a as int, b as int) == t);
        if a < b {
            let mut w: Vec<char> = Vec::new();
            push_range(&mut w, &v, a, b);
            if !has_prefix(&w, &sob) {
                return false;
            }
            saw = true;
        }
        k = k + 1;
    }
    saw
}

// ----- cleanup modes and the scissors line ---------------------------------------------

/// The scissors line that separates the message from what is ignored below it.
pub const GIT_COMMIT_CUT_LINE: &'static str = "------------------------ >8 ------------------------\n";

/// How a commit message is cleaned up (Git's `--cleanup` modes).
#[derive(PartialEq, Eq, Structural, Clone, Copy, Debug)]
pub enum CommitMsgCleanupMode {
    /// `verbatim`: leave the message as it is.
    Verbatim,
    /// `whitespace`: strip leading and trailing blank lines and whitespace.
    Space,
    /// `strip`: also drop comment lines and collapse blank lines.
    All,
    /// `scissors`: like `whitespace`, after cutting at the scissors line.
    Scissors,
}

/// The scissors line with its comment prefix: `<prefix> <cut line>`.
pub open spec fn cut_lead(prefix: Seq<char>) -> Seq<char> {
    prefix + seq![' '] + GIT_COMMIT_CUT_LINE@
}

/// The message up to (and with) the newline before the first scissors line, or all of it.
pub open spec fn before_scissors(m: Seq<char>, prefix: Seq<char>) -> Seq<char> {
    if starts_with(m, cut_lead(prefix)) {
        Seq::empty()
    } else {
        match find(m, seq!['\n'] + cut_lead(prefix)) {
            Some(q) => m.take(q + 1),
            None => m,
        }
    }
}

/// Cuts the message at the scissors line (Git `wt_status_locate_end`).
pub fn truncate_at_verbose_cutoff(message: &str, comment_prefix: &str) -> (r: String)
    ensures
        r@ == before_scissors(message@, comment_prefix@),
{
    let v = chars_of(message);
    let mut lead = chars_of(comment_prefix);
    lead.push(' ');
    let cut = chars_of(GIT_COMMIT_CUT_LINE);
    push_all(&mut lead, &cut);
    assert(lead@ =~= cut_lead(comment_prefix@));
    if has_prefix(&v, &lead) {
        return String::new();
    }
    let mut needle = vec!['\n'];
    push_all(&mut needle, &lead);
    assert(needle@ =~= seq!['\n'] + cut_lead(comment_prefix@));
    match find_at(&v, &needle, 0) {
        Some(q) => {
            proof {
                lemma_find_from_props(v@, needle@, 0);
                assert(occurs_at(v@, needle@, q as int));
            }
            let n = v.len();
            assert(v@.take(q + 1) =~= v@.subrange(0, q + 1));
            string_of(&v, 0, q + 1)
        },
        None => {
            assert(v@.subrange(0, v@.len() as int) =~= v@);
            string_all(&v)
        },
    }
}

/// Byte offset at which the user's message ends: before the scissors line, or its length.
pub open spec fn scissors_offset(m: Seq<char>, prefix: Seq<char>) -> nat {
    byte_len(before_scissors(m, prefix))
}

/// The byte offset at which the user's part of `message` ends: the start of the scissors line
/// (Git `wt_status_locate_end`), or the length of the message when there is none.
pub fn wt_status_locate_end(message: &str, comment_prefix: &str) -> (r: usize)
    ensures
        r == scissors_offset(message@, comment_prefix@),
{
    let kept = truncate_at_verbose_cutoff(message, comment_prefix);
    let ks = kept.as_str();
    let n = ks.as_bytes().len();
    n
}

/// `apply_cleanup_message`: cut at the scissors line when verbose or in scissors mode, then
/// clean up as the mode says.
pub open spec fn cleaned_message(m: Seq<char>, verbose: int, prefix: Seq<char>, mode: CommitMsgCleanupMode) -> Seq<char> {
    let t = if verbose > 0 || mode == CommitMsgCleanupMode::Scissors {
        before_scissors(m, prefix)
    } else {
        m
    };
    match mode {
        CommitMsgCleanupMode::Verbatim => t,
        CommitMsgCleanupMode::All => stripspace(t, prefix),
        _ => vertical_stripspace(t),
    }
}

/// Git `cleanup_message`: truncates before the scissors line when `verbose_level > 0` or in
/// scissors mode, then applies the mode's cleanup (comment prefix only for `All`).
pub fn apply_cleanup_message(
    message: &str,
    verbose_level: i64,
    comment_prefix: &str,
    mode: CommitMsgCleanupMode,
) -> (r: String)
    ensures
        r@ == cleaned_message(message@, verbose_level as int, comment_prefix@, mode),
{
    let truncated = if verbose_level > 0 || mode == CommitMsgCleanupMode::Scissors {
        truncate_at_verbose_cutoff(message, comment_prefix)
    } else {
        message.to_owned()
    };
    match mode {
        CommitMsgCleanupMode::Verbatim => truncated,
        CommitMsgCleanupMode::All => cleanup_edited_commit_message(truncated.as_str(), comment_prefix),
        _ => git_vertical_stripspace(truncated.as_str()),
    }
}

/// The byte-level cleanup of a message for `mode`, with a newline added at the end when the
/// result is not empty and lacks one.
pub open spec fn cleaned_bytes(b: Seq<u8>, prefix: Seq<u8>, mode: CommitMsgCleanupMode) -> Seq<u8> {
    let c = match mode {
        CommitMsgCleanupMode::Verbatim => b,
        CommitMsgCleanupMode::All => stripspace_bytes(b, prefix),
        _ => vertical_stripspace_bytes(b),
    };
    if c.len() > 0 && c.last() != 10u8 {
        c.push(10u8)
    } else {
        c
    }
}

/// Applies `mode`'s cleanup to a message held as bytes (one that is not valid UTF-8), and
/// returns the bytes to store: with a single trailing newline when not empty.
pub fn cleanup_message_bytes(bytes: &[u8], comment_prefix: &[u8], mode: CommitMsgCleanupMode) -> (r: Vec<u8>)
    ensures
        r@ == cleaned_bytes(bytes@, comment_prefix@, mode),
{
    let mut cleaned = match mode {
        CommitMsgCleanupMode::Verbatim => {
            let mut c: Vec<u8> = Vec::new();
            push_byte_range(&mut c, bytes, 0, bytes.len());
            assert(c@ =~= bytes@);
            c
        },
        CommitMsgCleanupMode::All => cleanup_edited_commit_message_bytes(bytes, comment_prefix),
        _ => git_vertical_stripspace_bytes(bytes),
    };
    if cleaned.len() > 0 && cleaned[cleaned.len() - 1] != 10u8 {
        cleaned.push(10u8);
    }
    cleaned
}

// ----- comment lines -------------------------------------------------------------------

/// `body` as a comment line: the prefix, a space unless the body is empty or starts with a
/// newline or tab, the body, and a newline unless the body ends with one.
pub open spec fn commented(prefix: Seq<char>, body: Seq<char>) -> Seq<char> {
    let sp = if body.len() > 0 && body[0] != '\n' && body[0] != '\t' {
        seq![' ']
    } else {
        Seq::empty()
    };
    let nl = if body.len() > 0 && body.last() == '\n' {
        Seq::empty()
    } else {
        seq!['\n']
    };
    prefix + sp + body + nl
}

/// Appends `body` to `buf` as a comment line.
pub fn append_commented_line(buf: &mut String, comment_prefix: &str, body: &str)
    ensures
        final(buf)@ == old(buf)@ + commented(comment_prefix@, body@),
{
    let b = chars_of(body);
    buf.append(comment_prefix);
    if b.len() > 0 && b[0] != '\n' && b[0] != '\t' {
        crate::text::push_char(buf, ' ');
    }
    buf.append(body);
    if !(b.len() > 0 && b[b.len() - 1] == '\n') {
        crate::text::push_char(buf, '\n');
    }
    assert(buf@ =~= old(buf)@ + commented(comment_prefix@, body@));
}

/// The scissors line and the two lines that explain it, each as a comment line.
pub open spec fn verbose_cut_block(prefix: Seq<char>) -> Seq<char> {
    commented(prefix, "------------------------ >8 ------------------------"@)
        + commented(prefix, "Do not modify or remove the line above."@)
        + commented(prefix, "Everything below it will be ignored."@)
}

/// Appends the scissors line that comes before the diff in a verbose commit template.
pub fn append_verbose_cut_line(buf: &mut String, comment_prefix: &str)
    ensures
        final(buf)@ == old(buf)@ + verbose_cut_block(comment_prefix@),
{
    append_commented_line(buf, comment_prefix, "------------------------ >8 ------------------------");
    append_commented_line(buf, comment_prefix, "Do not modify or remove the line above.");
    append_commented_line(buf, comment_prefix, "Everything below it will be ignored.");
    assert(buf@ =~= old(buf)@ + verbose_cut_block(comment_prefix@));
}

/// The scissors line is one line: its only line break is its last character.
proof fn lemma_cut_lead_one_line(prefix: Seq<char>)
    requires
        !prefix.contains('\n'),
    ensures
        cut_lead(prefix).last() == '\n',
        forall|j: int| 0 <= j < cut_lead(prefix).len() - 1 ==> #[trigger] cut_lead(prefix)[j] != '\n',
        cut_lead(prefix).len() <= verbose_cut_block(prefix).len(),
        verbose_cut_block(prefix).take(cut_lead(prefix).len() as int) == cut_lead(prefix),
{
    reveal_strlit("------------------------ >8 ------------------------\n");
    reveal_strlit("------------------------ >8 ------------------------");
    let cut = GIT_COMMIT_CUT_LINE@;
    let body = "------------------------ >8 ------------------------"@;
    assert(cut =~= body + seq!['\n']);
    assert forall|j: int| 0 <= j < body.len() implies body[j] != '\n' by {
        assert(body[j] == '-' || body[j] == ' ' || body[j] == '>' || body[j] == '8');
    }
    let cl = cut_lead(prefix);
    assert forall|j: int| 0 <= j < cl.len() - 1 implies #[trigger] cl[j] != '\n' by {
        if j < prefix.len() {
            assert(cl[j] == prefix[j]);
        } else if j > prefix.len() {
            assert(cl[j] == body[j - prefix.len() - 1]);
        }
    }
    let first = commented(prefix, body);
    assert(first =~= cl);
    let block = verbose_cut_block(prefix);
    assert(block.take(cl.len() as int) =~= cl);
}

/// Appending the scissors block to a message that ends with a line break (or is empty) and
/// holds no scissors line, then cutting at the scissors line, gives the message back.
pub proof fn law_scissors_round_trip(m: Seq<char>, prefix: Seq<char>)
    requires
        m.len() == 0 || m.last() == '\n',
        !prefix.contains('\n'),
        !crate::text::contains_seq(m, cut_lead(prefix)),
    ensures
        before_scissors(m + verbose_cut_block(prefix), prefix) == m,
{
    let cl = cut_lead(prefix);
    let b = verbose_cut_block(prefix);
    let s = m + b;
    lemma_cut_lead_one_line(prefix);
    if m.len() == 0 {
        assert(s =~= b);
        assert(s.subrange(0, cl.len() as int) =~= cl);
        assert(m =~= Seq::<char>::empty());
    } else {
        if starts_with(s, cl) {
            if m.len() >= cl.len() {
                assert(m.subrange(0, cl.len() as int) =~= s.subrange(0, cl.len() as int));
                assert(occurs_at(m, cl, 0));
            } else {
                assert(s[m.len() - 1] == s.subrange(0, cl.len() as int)[m.len() - 1]);
                assert(cl[m.len() - 1] != '\n');
            }
            assert(false);
        }
        let n = seq!['\n'] + cl;
        let q = m.len() - 1;
        assert(s.subrange(q, q + n.len()) =~= n) by {
            assert forall|k: int| 0 <= k < n.len() implies s.subrange(q, q + n.len())[k] == n[k] by {
                if k > 0 {
                    assert(s[q + k] == b[k - 1]);
                    assert(b[k - 1] == b.take(cl.len() as int)[k - 1]);
                }
            }
        }
        assert forall|j: int| 0 <= j < q implies !occurs_at(s, n, j) by {
            if occurs_at(s, n, j) {
                if j + n.len() <= m.len() {
                    assert(m.subrange(j + 1, j + 1 + cl.len()) =~= cl) by {
                        assert forall|k: int| 0 <= k < cl.len() implies m.subrange(j + 1, j + 1 + cl.len())[k]
                            == cl[k] by {
                            assert(s.subrange(j, j + n.len())[k + 1] == n[k + 1]);
                        }
                    }
                    assert(occurs_at(m, cl, j + 1));
                } else {
                    let k = q - j;
                    assert(s.subrange(j, j + n.len())[k] == n[k]);
                    assert(n[k] == cl[k - 1]);
                }
            }
        }
        crate::text::lemma_find_from_exact(s, n, 0, q);
        assert(s.take(q + 1) =~= m);
    }
}

/// The comment characters tried, in order, for `core.commentChar=auto`.
pub open spec fn comment_candidates() -> Seq<char> {
    seq!['#', ';', '@', '!', '$', '%', '^', '&', '|', ':']
}

/// Some line of `m` starts with `c`.
pub open spec fn some_line_starts_with(m: Seq<char>, c: char) -> bool {
    exists|k: int| 0 <= k < lines(m).len() && (#[trigger] lines(m)[k]).len() > 0 && lines(m)[k][0] == c
}

/// The first candidate from index `i` on that starts no line of `m`.
pub open spec fn free_comment_char_from(m: Seq<char>, i: int) -> Option<char>
    decreases comment_candidates().len() - i,
{
    if i < 0 || i >= comment_candidates().len() {
        None
    } else if !some_line_starts_with(m, comment_candidates()[i]) {
        Some(comment_candidates()[i])
    } else {
        free_comment_char_from(m, i + 1)
    }
}

/// Whether a line of `v` starts with `c`.
fn any_line_starts_with(v: &Vec<char>, c: char) -> (r: bool)
    ensures
        r == some_line_starts_with(v@, c),
{
    let ls = split_lines(v);
    let mut k: usize = 0;
    while k < ls.len()
        invariant
            ls@.len() == lines(v@).len(),
            forall|j: int|
                #![trigger ls@[j]]
                0 <= j < ls@.len() ==> ls@[j].0 <= ls@[j].1 <= v@.len() && v@.subrange(
                    ls@[j].0 as int,
                    ls@[j].1 as int,
                ) == lines(v@)[j],
            k <= ls@.len(),
            forall|j: int| 0 <= j < k ==> !((#[trigger] lines(v@)[j]).len() > 0 && lines(v@)[j][0] == c),
        decreases ls@.len() - k,
    {
        let (lo, hi) = ls[k];
        assert(v@.subrange(lo as int, hi as int) == lines(v@)[k as int]);
        if lo < hi && v[lo] == c {
            assert(lines(v@)[k as int][0] == v@[lo as int]);
            return true;
        }
        k = k + 1;
    }
    false
}

/// The comment character for `core.commentChar=auto`: the first of `#;@!$%^&|:` that starts no
/// line of the message, if any.
pub fn auto_comment_prefix_for_message(message: &str) -> (r: Option<String>)
    ensures
        match free_comment_char_from(message@, 0) {
            Some(c) => r is Some && r.unwrap()@ == seq![c],
            None => r is None,
        },
{
    let v = chars_of(message);
    let cands = vec!['#', ';', '@', '!', '$', '%', '^', '&', '|', ':'];
    assert(cands@ =~= comment_candidates());
    let mut i: usize = 0;
    while i < cands.len()
        invariant
            cands@ == comment_candidates(),
            v@ == message@,
            i <= cands@.len(),
            free_comment_char_from(message@, i as int) == free_comment_char_from(message@, 0),
        decreases cands@.len() - i,
    {
        let c = cands[i];
        if !any_line_starts_with(&v, c) {
            let mut s = String::new();
            crate::text::push_char(&mut s, c);
            assert(s@ =~= seq![c]);
            return Some(s);
        }
        i = i + 1;
    }
    None
}

// ----- sign-off-only rests -------------------------------------------------------------

/// Every line of `s` is blank once trimmed or starts with `Signed-off-by:`.
pub open spec fn blank_or_signoff_lines(s: Seq<char>) -> bool {
    forall|k: int|
        0 <= k < pieces(s).len() ==> trim(#[trigger] pieces(s)[k]).len() == 0 || starts_with(
            trim(pieces(s)[k]),
            "Signed-off-by:"@,
        )
}

/// Whether every line of `v[lo..]` is blank or a sign-off.
fn rest_blank_or_signoff(v: &Vec<char>, lo: usize) -> (r: bool)
    requires
        lo <= v@.len(),
    ensures
        r == blank_or_signoff_lines(v@.subrange(lo as int, v@.len() as int)),
{
    let mut rest: Vec<char> = Vec::new();
    push_range(&mut rest, v, lo, v.len());
    assert(rest@ =~= v@.subrange(lo as int, v@.len() as int));
    let sob = chars_of("Signed-off-by:");
    let ps = split_pieces(&rest);
    let ghost pv = pieces(rest@);
    let mut k: usize = 0;
    while k < ps.len()
        invariant
            pv == pieces(rest@),
            rest@ == v@.subrange(lo as int, v@.len() as int),
            sob@ == "Signed-off-by:"@,
            ps@.len() == pv.len(),
            forall|j: int|
                #![trigger ps@[j]]
                0 <= j < ps@.len() ==> ps@[j].0 <= ps@[j].1 <= rest@.len() && rest@.subrange(
                    ps@[j].0 as int,
                    ps@[j].1 as int,
                ) == pv[j],
            k <= ps@.len(),
            forall|j: int| 0 <= j < k ==> trim(#[trigger] pv[j]).len() == 0 || starts_with(trim(pv[j]), sob@),
        decreases ps@.len() - k,
    {
        let (a0, b0) = ps[k];
        assert(rest@.subrange(a0 as int, b0 as int) == pv[k as int]);
        let (a, b) = trim_bounds(&rest, a0, b0);
        if a < b {
            let mut w: Vec<char> = Vec::new();
            push_range(&mut w, &rest, a, b);
            assert(w@ =~= rest@.subrange(a as int, b as int));
            if !has_prefix(&w, &sob) {
                assert(!(trim(pv[k as int]).len() == 0 || starts_with(trim(pv[k as int]), sob@)));
                return false;
            }
        }
        k = k + 1;
    }
    true
}

/// What `s.get(start..)` gives: the characters from byte offset `start` on, or nothing when
/// `start` is not a character boundary of `s`.
pub open spec fn rest_from_byte(s: Seq<char>, start: int) -> Seq<char> {
    if exists|k: int| 0 <= k <= s.len() && #[trigger] byte_len(s.take(k)) == start {
        s.subrange(choose|k: int| 0 <= k <= s.len() && #[trigger] byte_len(s.take(k)) == start, s.len() as int)
    } else {
        Seq::empty()
    }
}

/// Whether everything from byte offset `start` on is blank lines and sign-off lines.
pub fn rest_is_empty_signedoff_only(s: &str, start: usize) -> (r: bool)
    ensures
        r == blank_or_signoff_lines(rest_from_byte(s@, start as int)),
{
    let v = chars_of(s);
    match char_index_at_byte(&v, start) {
        Some(k) => {
            proof {
                let c = choose|j: int| 0 <= j <= v@.len() && #[trigger] byte_len(v@.take(j)) == start;
                if c != k {
                    if c < k {
                        crate::text::lemma_byte_len_mono(v@, c + 1, k as int);
                        crate::text::lemma_byte_len_take(v@, c);
                    } else {
                        crate::text::lemma_byte_len_mono(v@, k + 1, c);
                        crate::text::lemma_byte_len_take(v@, k as int);
                    }
                }
            }
            rest_blank_or_signoff(&v, k)
        },
        None => {
            assert(pieces(Seq::<char>::empty()).len() == 0);
            true
        },
    }
}

/// What follows `tmpl` at the start of `msg`, or all of `msg` when it does not start so.
pub open spec fn after_template(msg: Seq<char>, tmpl: Seq<char>) -> Seq<char> {
    if starts_with(msg, tmpl) {
        msg.subrange(tmpl.len() as int, msg.len() as int)
    } else {
        msg
    }
}

/// The cleanup a mode applies, without the scissors cut.
pub open spec fn mode_cleanup(m: Seq<char>, prefix: Seq<char>, mode: CommitMsgCleanupMode) -> Seq<char> {
    match mode {
        CommitMsgCleanupMode::Verbatim => m,
        CommitMsgCleanupMode::All => stripspace(m, prefix),
        _ => vertical_stripspace(m),
    }
}

fn apply_mode_cleanup(m: &str, prefix: &str, mode: CommitMsgCleanupMode) -> (r: String)
    ensures
        r@ == mode_cleanup(m@, prefix@, mode),
{
    match mode {
        CommitMsgCleanupMode::Verbatim => m.to_owned(),
        CommitMsgCleanupMode::All => cleanup_edited_commit_message(m, prefix),
        _ => git_vertical_stripspace(m),
    }
}

/// Whether the user left the template as it was: once both are cleaned up, the message is
/// the template followed only by blank lines and sign-offs. `template` is the template file's
/// text, or `None` when it could not be read (then the answer is no).
pub fn template_untouched(
    message: &str,
    template: Option<&str>,
    comment_prefix: &str,
    cleanup_mode: CommitMsgCleanupMode,
) -> (r: bool)
    ensures
        match template {
            Some(t) => r == blank_or_signoff_lines(
                after_template(
                    mode_cleanup(message@, comment_prefix@, cleanup_mode),
                    mode_cleanup(t@, comment_prefix@, cleanup_mode),
                ),
            ),
            None => !r,
        },
{
    let tmpl_raw = match template {
        Some(t) => t,
        None => {
            return false;
        },
    };
    let tmpl = apply_mode_cleanup(tmpl_raw, comment_prefix, cleanup_mode);
    let msg = apply_mode_cleanup(message, comment_prefix, cleanup_mode);
    let mv = chars_of(msg.as_str());
    let tv = chars_of(tmpl.as_str());
    let start = if has_prefix(&mv, &tv) {
        tv.len()
    } else {
        0
    };
    assert(mv@.subrange(0, mv@.len() as int) =~= mv@);
    rest_blank_or_signoff(&mv, start)
}

// ----- the editor's message file -------------------------------------------------------

/// Index of the first line of `t` (from index `i` on) that starts with `prefix`, or the
/// length of `t`.
pub open spec fn comment_start_from(t: Seq<char>, i: int, prefix: Seq<char>) -> int
    decreases t.len() - i,
{
    if i < 0 || i >= t.len() {
        t.len() as int
    } else {
        let e = line_end(t, i, '\n');
        proof {
            lemma_line_end(t, i, '\n');
        }
        if has_lead(t.subrange(i, e), prefix) {
            i
        } else {
            comment_start_from(t, e, prefix)
        }
    }
}

/// The edited message put back in front of the comment part of the previous message file:
/// the message with a newline at its end, a blank line before a non-empty comment part, then
/// that part (from its first line that starts with the comment prefix).
pub open spec fn restored_message(previous: Seq<char>, message: Seq<char>, prefix: Seq<char>) -> Seq<char> {
    let suffix = previous.subrange(comment_start_from(previous, 0, prefix), previous.len() as int);
    let m1 = with_trailing_newline(message);
    let m2 = if suffix.len() > 0 && m1.len() > 0 && !crate::text::ends_with(m1, "\n\n"@) {
        m1.push('\n')
    } else {
        m1
    };
    m2 + suffix
}

proof fn lemma_comment_start_bound(t: Seq<char>, i: int, prefix: Seq<char>)
    requires
        0 <= i,
    ensures
        (i <= t.len() ==> i <= comment_start_from(t, i, prefix)) && comment_start_from(t, i, prefix) <= t.len(),
    decreases t.len() - i,
{
    if i < t.len() {
        lemma_line_end(t, i, '\n');
        let e = line_end(t, i, '\n');
        if !has_lead(t.subrange(i, e), prefix) {
            lemma_comment_start_bound(t, e, prefix);
        }
    }
}

/// Puts an edited message back in front of the comment part of the previous message text.
pub fn replace_editmsg_user_text(previous: &str, message: &str, comment_prefix: &str) -> (r: String)
    ensures
        r@ == restored_message(previous@, message@, comment_prefix@),
{
    let t = chars_of(previous);
    let p = chars_of(comment_prefix);
    let mut i: usize = 0;
    while i < t.len()
        invariant
            i <= t@.len(),
            comment_start_from(t@, i as int, p@) == comment_start_from(t@, 0, p@),
        ensures
            i <= t@.len(),
            comment_start_from(t@, 0, p@) == i,
        decreases t@.len() - i,
    {
        let e = next_line_end(&t, i);
        proof {
            lemma_line_end(t@, i as int, '\n');
        }
        if range_has_lead(&t, i, e, &p) {
            break;
        }
        i = e;
    }
    proof {
        lemma_comment_start_bound(t@, 0, p@);
    }
    let n = t.len();
    let mut out = chars_of(message);
    if out.len() > 0 && out[out.len() - 1] != '\n' {
        out.push('\n');
    }
    assert(out@ == with_trailing_newline(message@));
    let nn = chars_of("\n\n");
    if i < n && out.len() > 0 && !has_suffix(&out, &nn) {
        out.push('\n');
    }
    push_range(&mut out, &t, i, n);
    assert(out@ =~= restored_message(previous@, message@, comment_prefix@));
    string_all(&out)
}

/// `std::str::from_utf8`, as an owned string: `Some` exactly when the bytes are valid UTF-8,
/// holding the text they encode.
#[verifier::external_body]
pub(crate) fn utf8_text(bytes: &[u8]) -> (r: Option<String>)
    ensures
        match r {
            Some(s) => vstd::utf8::valid_utf8(bytes@) && s@ == vstd::utf8::decode_utf8(bytes@),
            None => !vstd::utf8::valid_utf8(bytes@),
        },
{
    match std::str::from_utf8(bytes) {
        Ok(s) => Some(s.to_owned()),
        Err(_) => None,
    }
}

/// The UTF-8 bytes of a string.
pub fn string_bytes(s: &String) -> (r: Vec<u8>)
    ensures
        r@ == vstd::utf8::encode_utf8(s@),
{
    let b = s.as_str().as_bytes();
    let mut r: Vec<u8> = Vec::new();
    push_byte_range(&mut r, b, 0, b.len());
    assert(r@ =~= b@);
    r
}

/// The previous message file's bytes with the user's part replaced by `message`; unchanged
/// when they are not valid UTF-8.
pub fn replace_editmsg_user_message(previous: &[u8], message: &str, comment_prefix: &str) -> (r: Vec<u8>)
    ensures
        r@ == if vstd::utf8::valid_utf8(previous@) {
            vstd::utf8::encode_utf8(restored_message(vstd::utf8::decode_utf8(previous@), message@, comment_prefix@))
        } else {
            previous@
        },
{
    match utf8_text(previous) {
        Some(text) => {
            let restored = replace_editmsg_user_text(text.as_str(), message, comment_prefix);
            string_bytes(&restored)
        },
        None => {
            let mut r: Vec<u8> = Vec::new();
            push_byte_range(&mut r, previous, 0, previous.len());
            assert(r@ =~= previous@);
            r
        },
    }
}

// ----- messages read from files --------------------------------------------------------

/// A commit message and where it came from.
pub struct MessageResult {
    /// The message as text (decoded lossily when `raw_bytes` is not valid UTF-8).
    pub message: String,
    /// The message as read, with a newline at its end, kept to be stored as it is.
    pub raw_bytes: Option<Vec<u8>>,
    /// The message came from `MERGE_MSG`.
    pub from_merge_msg: bool,
}

/// What `String::from_utf8_lossy` makes of a byte string: the text it encodes, with each
/// invalid sequence replaced by U+FFFD.
pub uninterp spec fn lossy_text(b: Seq<u8>) -> Seq<char>;

/// `String::from_utf8_lossy`: named by its result; for valid UTF-8 that is the text the bytes
/// encode, as its documentation says. How invalid sequences are replaced is left to the name.
#[verifier::external_body]
pub(crate) fn utf8_lossy(bytes: &[u8]) -> (r: String)
    ensures
        r@ == lossy_text(bytes@),
        vstd::utf8::valid_utf8(bytes@) ==> r@ == vstd::utf8::decode_utf8(bytes@),
{
    String::from_utf8_lossy(bytes).into_owned()
}

/// The bytes with a newline added when they are not empty and do not end with one.
pub open spec fn bytes_with_newline(b: Seq<u8>) -> Seq<u8> {
    if b.len() > 0 && b.last() != 10u8 {
        b.push(10u8)
    } else {
        b
    }
}

/// A message read from a file (`-F`): kept as raw bytes (with a final newline) to be stored
/// verbatim, and as text for cleanup and emptiness checks.
pub fn raw_to_message_result(raw: Vec<u8>) -> (r: MessageResult)
    ensures
        r.message@ == with_trailing_newline(lossy_text(raw@)),
        r.raw_bytes matches Some(b) && b@ == bytes_with_newline(raw@),
        !r.from_merge_msg,
{
    let lossy = utf8_lossy(raw.as_slice());
    let mut raw_nl = raw;
    if raw_nl.len() > 0 && raw_nl[raw_nl.len() - 1] != 10u8 {
        raw_nl.push(10u8);
    }
    MessageResult {
        message: ensure_trailing_newline(lossy.as_str()),
        raw_bytes: Some(raw_nl),
        from_merge_msg: false,
    }
}

// ----- laws of the whitespace cleanups -------------------------------------------------

pub proof fn lemma_drop_leading<T>(s: Seq<T>, f: spec_fn(T) -> bool)
    ensures
        drop_leading(s, f).len() <= s.len(),
        drop_leading(s, f).len() > 0 ==> !f(drop_leading(s, f)[0]),
        drop_leading(s, f) == s.subrange(s.len() - drop_leading(s, f).len(), s.len() as int),
    decreases s.len(),
{
    if s.len() > 0 && f(s[0]) {
        lemma_drop_leading(s.drop_first(), f);
        let d = drop_leading(s.drop_first(), f);
        assert(s.drop_first().subrange(s.drop_first().len() - d.len(), s.drop_first().len() as int)
            =~= s.subrange(s.len() - d.len(), s.len() as int));
    } else {
        assert(s.subrange(0, s.len() as int) =~= s);
    }
}

pub proof fn lemma_trim_trailing_fixed<T>(s: Seq<T>, ws: spec_fn(T) -> bool)
    requires
        s.len() == 0 || !ws(s.last()),
    ensures
        trim_trailing(s, ws) == s,
{
}

pub proof fn lemma_drop_leading_fixed<T>(s: Seq<T>, f: spec_fn(T) -> bool)
    requires
        s.len() == 0 || !f(s[0]),
    ensures
        drop_leading(s, f) == s,
{
}

/// After the whitespace-only cleanup a message neither starts with a line break nor ends with
/// whitespace, and cleaning it again changes nothing.
pub proof fn law_vertical_stripspace(s: Seq<char>)
    ensures
        ({
            let r = vertical_stripspace(s);
            &&& r.len() > 0 ==> !is_vertical_lead(r[0]) && !is_vertical_trail(r.last())
            &&& vertical_stripspace(r) == r
        }),
{
    let d = drop_leading(s, vertical_lead());
    lemma_drop_leading(d, vertical_lead());
    lemma_drop_leading(s, vertical_lead());
    lemma_trim_trailing(d, vertical_trail());
    let r = trim_trailing(d, vertical_trail());
    if r.len() > 0 {
        assert(r[0] == d[0]);
    }
    lemma_drop_leading_fixed(r, vertical_lead());
    lemma_trim_trailing_fixed(r, vertical_trail());
}

/// Adding the final newline twice is adding it once.
pub proof fn law_trailing_newline_idempotent(s: Seq<char>)
    ensures
        with_trailing_newline(with_trailing_newline(s)) == with_trailing_newline(s),
{
}

/// The byte-level cleanup of every mode leaves a message that is empty or ends with a newline.
pub proof fn law_cleaned_bytes_end_with_newline(b: Seq<u8>, prefix: Seq<u8>, mode: CommitMsgCleanupMode)
    ensures
        ({
            let c = cleaned_bytes(b, prefix, mode);
            c.len() == 0 || c.last() == 10u8
        }),
{
}

} // verus!
