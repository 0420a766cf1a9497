//! How the byte-level message cleanups act on the UTF-8 encoding of a text: they give the
//! encoding of what the text-level cleanups give.
use vstd::prelude::*;
use vstd::utf8::{encode_scalar, encode_utf8, encode_utf8_first_scalar, has_width_1_encoding};
use crate::message::{
    ascii_ws_bytes, ascii_ws_chars, byte_comment, cleanup_from, cleanup_step, drop_leading, has_lead,
    lemma_line_end, line_end, stripspace, stripspace_bytes, text_comment, trim_trailing, vertical_lead,
    vertical_lead_byte, vertical_stripspace, vertical_stripspace_bytes, vertical_trail, vertical_trail_byte,
};

verus! {

/// `pb` is the byte form of the character test `pc`: both hold only of ASCII, and they agree
/// there.
pub open spec fn ascii_twin(pc: spec_fn(char) -> bool, pb: spec_fn(u8) -> bool) -> bool {
    &&& forall|c: char| #[trigger] pc(c) ==> (c as u32) < 128
    &&& forall|b: u8| #[trigger] pb(b) ==> b < 128
    &&& forall|c: char| (c as u32) < 128 ==> #[trigger] pc(c) == pb((c as u32) as u8)
}

/// A scalar below 128 is encoded as itself; any other scalar only as bytes of 128 and above.
proof fn lemma_scalar_bytes(v: u32)
    ensures
        encode_scalar(v).len() >= 1,
        has_width_1_encoding(v) ==> encode_scalar(v) == seq![v as u8],
        !has_width_1_encoding(v) ==> forall|j: int|
            0 <= j < encode_scalar(v).len() ==> #[trigger] encode_scalar(v)[j] >= 128,
{
    assert(v <= 0x7F ==> (v & 0x7F) as u8 == v as u8) by (bit_vector);
    assert((0xC0 | ((v >> 6) & 0x1F) as u8) >= 128u8) by (bit_vector);
    assert((0xE0 | ((v >> 12) & 0x0F) as u8) >= 128u8) by (bit_vector);
    assert((0xF0 | ((v >> 18) & 0x7) as u8) >= 128u8) by (bit_vector);
    assert((0x80 | (v & 0x3F) as u8) >= 128u8) by (bit_vector);
    assert((0x80 | ((v >> 6) & 0x3F) as u8) >= 128u8) by (bit_vector);
    assert((0x80 | ((v >> 12) & 0x3F) as u8) >= 128u8) by (bit_vector);
}

/// The encoding of a concatenation is the concatenation of the encodings.
pub proof fn lemma_encode_concat(a: Seq<char>, b: Seq<char>)
    ensures
        encode_utf8(a + b) == encode_utf8(a) + encode_utf8(b),
    decreases a.len(),
{
    if a.len() == 0 {
        assert(a + b =~= b);
        assert(encode_utf8(a) + encode_utf8(b) =~= encode_utf8(b));
    } else {
        assert((a + b).drop_first() =~= a.drop_first() + b);
        lemma_encode_concat(a.drop_first(), b);
        assert(encode_utf8(a + b) =~= encode_utf8(a) + encode_utf8(b));
    }
}

proof fn lemma_encode_one(c: char)
    ensures
        encode_utf8(seq![c]) == encode_scalar(c as u32),
{
    assert(seq![c].drop_first() =~= Seq::<char>::empty());
    assert(encode_utf8(Seq::<char>::empty()) =~= Seq::<u8>::empty());
    assert(encode_utf8(seq![c]) == encode_scalar(c as u32) + encode_utf8(seq![c].drop_first()));
    assert(encode_scalar(c as u32) + Seq::<u8>::empty() =~= encode_scalar(c as u32));
}

/// The encoding of `s` is that of all but its last character, then that of its last one.
proof fn lemma_encode_last(s: Seq<char>)
    requires
        s.len() > 0,
    ensures
        encode_utf8(s) == encode_utf8(s.drop_last()) + encode_scalar(s.last() as u32),
{
    assert(s =~= s.drop_last() + seq![s.last()]);
    lemma_encode_concat(s.drop_last(), seq![s.last()]);
    lemma_encode_one(s.last());
}

/// Nothing is encoded as no bytes but the empty text.
proof fn lemma_encode_empty(s: Seq<char>)
    ensures
        (encode_utf8(s).len() == 0) == (s.len() == 0),
{
    if s.len() > 0 {
        lemma_scalar_bytes(s[0] as u32);
    }
}

/// Trailing characters that `pc` strips are stripped from the encoding as the bytes `pb`
/// strips.
proof fn lemma_trim_trailing_encode(l: Seq<char>, pc: spec_fn(char) -> bool, pb: spec_fn(u8) -> bool)
    requires
        ascii_twin(pc, pb),
    ensures
        trim_trailing(encode_utf8(l), pb) == encode_utf8(trim_trailing(l, pc)),
    decreases l.len(),
{
    lemma_encode_empty(l);
    if l.len() > 0 {
        let c = l.last();
        let v = c as u32;
        let e = encode_utf8(l);
        lemma_encode_last(l);
        lemma_scalar_bytes(v);
        let enc = encode_scalar(v);
        assert(e.last() == enc.last());
        if pc(c) {
            assert(enc == seq![v as u8]);
            assert(pb(e.last()));
            assert(e.drop_last() =~= encode_utf8(l.drop_last()));
            lemma_trim_trailing_encode(l.drop_last(), pc, pb);
        } else {
            if has_width_1_encoding(v) {
                assert(enc == seq![v as u8]);
                assert(pc(c) == pb((c as u32) as u8));
            } else {
                assert(enc[enc.len() - 1] >= 128);
            }
            assert(!pb(e.last()));
        }
    }
}

/// Leading characters that `pc` drops are dropped from the encoding as the bytes `pb` drops.
proof fn lemma_drop_leading_encode(s: Seq<char>, pc: spec_fn(char) -> bool, pb: spec_fn(u8) -> bool)
    requires
        ascii_twin(pc, pb),
    ensures
        drop_leading(encode_utf8(s), pb) == encode_utf8(drop_leading(s, pc)),
    decreases s.len(),
{
    lemma_encode_empty(s);
    if s.len() > 0 {
        let c = s[0];
        let v = c as u32;
        let e = encode_utf8(s);
        lemma_scalar_bytes(v);
        let enc = encode_scalar(v);
        assert(e == enc + encode_utf8(s.drop_first()));
        assert(e[0] == enc[0]);
        if pc(c) {
            assert(enc == seq![v as u8]);
            assert(pb(e[0]));
            assert(e.drop_first() =~= encode_utf8(s.drop_first()));
            lemma_drop_leading_encode(s.drop_first(), pc, pb);
        } else {
            if has_width_1_encoding(v) {
                assert(enc == seq![v as u8]);
                assert(pc(c) == pb((c as u32) as u8));
            } else {
                assert(enc[0] >= 128);
            }
            assert(!pb(e[0]));
        }
    }
}

/// The code of a character below 128, read as a byte, is the same number; two characters with
/// the same code are the same.
proof fn lemma_char_code(c: char, d: char)
    ensures
        (c as u32) < 128 ==> ((c as u32) as u8) as int == (c as u32) as int,
        (c as u32) == (d as u32) ==> c == d,
{
    let v = c as u32;
    assert(v < 128 ==> (v as u8) as u32 == v) by (bit_vector);
    vstd::utf8::char_u32_cast(c, c as u32);
    vstd::utf8::char_u32_cast(d, d as u32);
}

proof fn lemma_vertical_twins()
    ensures
        ascii_twin(vertical_lead(), vertical_lead_byte()),
        ascii_twin(vertical_trail(), vertical_trail_byte()),
{
    assert forall|c: char| (c as u32) < 128 implies #[trigger] vertical_lead()(c) == vertical_lead_byte()(
        (c as u32) as u8,
    ) && vertical_trail()(c) == vertical_trail_byte()((c as u32) as u8) by {
        lemma_char_code(c, '\n');
        lemma_char_code(c, '\r');
        lemma_char_code(c, ' ');
        lemma_char_code(c, '\t');
    }
    assert forall|c: char| (c as u32) < 128 implies #[trigger] vertical_trail()(c) == vertical_trail_byte()(
        (c as u32) as u8,
    ) by {
        assert(vertical_lead()(c) == vertical_lead_byte()((c as u32) as u8));
    }
}

proof fn lemma_ascii_ws_twin()
    ensures
        ascii_twin(ascii_ws_chars(), ascii_ws_bytes()),
{
    assert forall|c: char| (c as u32) < 128 implies #[trigger] ascii_ws_chars()(c) == ascii_ws_bytes()(
        (c as u32) as u8,
    ) by {
        lemma_char_code(c, '\n');
        lemma_char_code(c, '\r');
        lemma_char_code(c, ' ');
        lemma_char_code(c, '\t');
        lemma_char_code(c, '\x0C');
    }
}

/// An encoded text starts with the encoding of a prefix exactly when the text starts with that
/// prefix.
pub proof fn lemma_has_lead_encode(l: Seq<char>, p: Seq<char>)
    ensures
        has_lead(encode_utf8(l), encode_utf8(p)) == has_lead(l, p),
    decreases p.len(),
{
    let el = encode_utf8(l);
    let ep = encode_utf8(p);
    lemma_encode_empty(p);
    if has_lead(l, p) {
        let rest = l.subrange(p.len() as int, l.len() as int);
        assert(l =~= p + rest);
        lemma_encode_concat(p, rest);
        assert(el.take(ep.len() as int) =~= ep);
    } else if p.len() > 0 && has_lead(el, ep) {
        lemma_encode_empty(l);
        assert(l.len() > 0);
        encode_utf8_first_scalar(l);
        encode_utf8_first_scalar(p);
        let w = encode_scalar(p[0] as u32).len() as int;
        assert(ep == encode_scalar(p[0] as u32) + encode_utf8(p.drop_first()));
        assert(el == encode_scalar(l[0] as u32) + encode_utf8(l.drop_first()));
        assert forall|j: int| 0 <= j < ep.len() implies el[j] == ep[j] by {
            assert(el.take(ep.len() as int)[j] == ep[j]);
        }
        lemma_scalar_bytes(p[0] as u32);
        assert(w <= ep.len());
        if w >= 2 {
            assert(el[1] == ep[1]);
        }
        if w >= 3 {
            assert(el[2] == ep[2]);
        }
        if w >= 4 {
            assert(el[3] == ep[3]);
        }
        assert(el[0] == ep[0]);
        assert(l[0] as u32 == p[0] as u32);
        lemma_char_code(l[0], p[0]);
        let l1 = l.drop_first();
        let p1 = p.drop_first();
        assert(encode_utf8(l1) =~= el.subrange(w, el.len() as int));
        assert(encode_utf8(p1) =~= ep.subrange(w, ep.len() as int));
        assert(encode_utf8(l1).take(encode_utf8(p1).len() as int) =~= encode_utf8(p1));
        lemma_has_lead_encode(l1, p1);
        assert(l.take(p.len() as int) =~= seq![p[0]] + l1.take(p1.len() as int));
        assert(p =~= seq![p[0]] + p1);
        assert(false);
    } else if p.len() == 0 {
        assert(el.take(0) =~= ep);
        assert(l.take(0) =~= p);
    }
}

/// A text without a line break is encoded without the byte 10.
proof fn lemma_encode_no_newline(t: Seq<char>)
    requires
        forall|j: int| 0 <= j < t.len() ==> t[j] != '\n',
    ensures
        forall|j: int| 0 <= j < encode_utf8(t).len() ==> encode_utf8(t)[j] != 10u8,
    decreases t.len(),
{
    if t.len() > 0 {
        let v = t[0] as u32;
        let enc = encode_scalar(v);
        let e = encode_utf8(t);
        lemma_scalar_bytes(v);
        lemma_encode_no_newline(t.drop_first());
        assert(e == enc + encode_utf8(t.drop_first()));
        lemma_char_code(t[0], '\n');
        assert forall|j: int| 0 <= j < e.len() implies e[j] != 10u8 by {
            if j < enc.len() {
                if has_width_1_encoding(v) {
                    assert(enc == seq![v as u8]);
                } else {
                    assert(enc[j] >= 128);
                }
            } else {
                assert(e[j] == encode_utf8(t.drop_first())[j - enc.len()]);
            }
        }
    }
}

/// `line_end` is the one index past `i` that ends a line.
proof fn lemma_line_end_unique<T>(s: Seq<T>, i: int, e: int, nl: T)
    requires
        0 <= i < e <= s.len(),
        forall|j: int| i <= j < e - 1 ==> s[j] != nl,
        e == s.len() || s[e - 1] == nl,
    ensures
        line_end(s, i, nl) == e,
    decreases e - i,
{
    if s[i] == nl {
        assert(i == e - 1);
    } else if i + 1 == e {
        assert(line_end(s, i + 1, nl) == s.len());
    } else {
        lemma_line_end_unique(s, i + 1, e, nl);
    }
}

/// The byte offset in the encoding of `s` of its character `i`.
pub open spec fn byte_offset(s: Seq<char>, i: int) -> int {
    encode_utf8(s.take(i)).len() as int
}

/// The line of `s` that starts at `i` is encoded as the line of the encoding that starts at the
/// byte offset of `i`.
proof fn lemma_line_encode(s: Seq<char>, i: int)
    requires
        0 <= i < s.len(),
    ensures
        byte_offset(s, i) < encode_utf8(s).len(),
        line_end(encode_utf8(s), byte_offset(s, i), 10u8) == byte_offset(s, line_end(s, i, '\n')),
        encode_utf8(s).subrange(byte_offset(s, i), byte_offset(s, line_end(s, i, '\n'))) == encode_utf8(
            s.subrange(i, line_end(s, i, '\n')),
        ),
{
    let es = encode_utf8(s);
    let e = line_end(s, i, '\n');
    lemma_line_end(s, i, '\n');
    let line = s.subrange(i, e);
    let el = encode_utf8(line);
    let bi = byte_offset(s, i);
    let be = byte_offset(s, e);
    assert(s.take(e) =~= s.take(i) + line);
    lemma_encode_concat(s.take(i), line);
    assert(s =~= s.take(e) + s.skip(e));
    lemma_encode_concat(s.take(e), s.skip(e));
    lemma_encode_empty(line);
    assert(be == bi + el.len());
    assert(es.subrange(bi, be) =~= el);
    let dl = line.drop_last();
    assert forall|j: int| 0 <= j < dl.len() implies dl[j] != '\n' by {
        assert(dl[j] == s[i + j]);
    }
    lemma_encode_no_newline(dl);
    lemma_encode_last(line);
    let enc = encode_scalar(line.last() as u32);
    lemma_scalar_bytes(line.last() as u32);
    assert forall|j: int| bi <= j < be - 1 implies es[j] != 10u8 by {
        assert(es[j] == el[j - bi]);
        let k = j - bi;
        if k < encode_utf8(dl).len() {
            assert(el[k] == encode_utf8(dl)[k]);
        } else {
            assert(el[k] == enc[k - encode_utf8(dl).len()]);
            assert(!has_width_1_encoding(line.last() as u32));
        }
    }
    if e < s.len() {
        assert(line.last() == '\n');
        lemma_char_code('\n', '\n');
        assert(enc == seq![10u8]);
        assert(es[be - 1] == el[el.len() - 1]);
    } else {
        assert(s.take(e) =~= s);
    }
    lemma_line_end_unique(es, bi, be, 10u8);
}

/// One cleanup step on an encoded line is the encoding of the step on the line.
proof fn lemma_step_encode(out: Seq<char>, blanks: nat, line: Seq<char>, comment: bool)
    ensures
        cleanup_step(encode_utf8(out), blanks, encode_utf8(line), comment, 10u8, ascii_ws_bytes()).0
            == encode_utf8(cleanup_step(out, blanks, line, comment, '\n', ascii_ws_chars()).0),
        cleanup_step(encode_utf8(out), blanks, encode_utf8(line), comment, 10u8, ascii_ws_bytes()).1
            == cleanup_step(out, blanks, line, comment, '\n', ascii_ws_chars()).1,
{
    if !comment {
        lemma_ascii_ws_twin();
        let c = trim_trailing(line, ascii_ws_chars());
        lemma_trim_trailing_encode(line, ascii_ws_chars(), ascii_ws_bytes());
        lemma_encode_empty(c);
        lemma_encode_empty(out);
        if c.len() > 0 {
            lemma_char_code('\n', '\n');
            lemma_encode_one('\n');
            lemma_scalar_bytes('\n' as u32);
            assert(encode_utf8(seq!['\n']) == seq![10u8]);
            let sep = if blanks > 0 && out.len() > 0 {
                seq!['\n']
            } else {
                Seq::<char>::empty()
            };
            assert(encode_utf8(Seq::<char>::empty()) =~= Seq::<u8>::empty());
            lemma_encode_concat(out, sep);
            lemma_encode_concat(out + sep, c.push('\n'));
            assert(c.push('\n') =~= c + seq!['\n']);
            lemma_encode_concat(c, seq!['\n']);
            assert(encode_utf8(c).push(10u8) =~= encode_utf8(c) + seq![10u8]);
            if blanks > 0 && out.len() > 0 {
                assert(encode_utf8(out + sep + c.push('\n')) =~= encode_utf8(out) + seq![10u8] + encode_utf8(
                    c,
                ).push(10u8));
            } else {
                assert(encode_utf8(out + sep + c.push('\n')) =~= encode_utf8(out) + Seq::<u8>::empty()
                    + encode_utf8(c).push(10u8));
            }
        }
    }
}

/// The byte-level cleanup of an encoded text, from the byte offset of line start `i`, is the
/// encoding of the text-level cleanup from `i`.
proof fn lemma_cleanup_encode(s: Seq<char>, i: int, out: Seq<char>, blanks: nat, p: Seq<char>)
    requires
        0 <= i <= s.len(),
        p.len() > 0,
    ensures
        cleanup_from(encode_utf8(s), byte_offset(s, i), encode_utf8(out), blanks, byte_comment(encode_utf8(p)), 10u8,
            ascii_ws_bytes()) == encode_utf8(
            cleanup_from(s, i, out, blanks, text_comment(p), '\n', ascii_ws_chars()),
        ),
    decreases s.len() - i,
{
    if i == s.len() {
        assert(s.take(i) =~= s);
    } else {
        let es = encode_utf8(s);
        let bi = byte_offset(s, i);
        let e = line_end(s, i, '\n');
        lemma_line_end(s, i, '\n');
        lemma_line_encode(s, i);
        let line = s.subrange(i, e);
        let cm = text_comment(p)(line);
        lemma_has_lead_encode(line, p);
        lemma_encode_empty(p);
        assert(byte_comment(encode_utf8(p))(es.subrange(bi, line_end(es, bi, 10u8))) == cm);
        lemma_step_encode(out, blanks, line, cm);
        let st = cleanup_step(out, blanks, line, cm, '\n', ascii_ws_chars());
        lemma_cleanup_encode(s, e, st.0, st.1, p);
    }
}

/// The byte-level cleanup of the encoding of a text, with the encoding of a comment prefix
/// that is not empty, is the encoding of the text-level cleanup.
pub proof fn law_stripspace_bytes_of_text(message: Seq<char>, prefix: Seq<char>)
    requires
        prefix.len() > 0,
    ensures
        stripspace_bytes(encode_utf8(message), encode_utf8(prefix)) == encode_utf8(stripspace(message, prefix)),
{
    lemma_cleanup_encode(message, 0, Seq::empty(), 0, prefix);
    assert(message.take(0) =~= Seq::<char>::empty());
    assert(encode_utf8(Seq::<char>::empty()) =~= Seq::<u8>::empty());
}

/// The whitespace-only cleanup of the encoding of a text is the encoding of its whitespace-only
/// cleanup.
pub proof fn law_vertical_stripspace_bytes_of_text(s: Seq<char>)
    ensures
        vertical_stripspace_bytes(encode_utf8(s)) == encode_utf8(vertical_stripspace(s)),
{
    lemma_vertical_twins();
    lemma_drop_leading_encode(s, vertical_lead(), vertical_lead_byte());
    lemma_trim_trailing_encode(drop_leading(s, vertical_lead()), vertical_trail(), vertical_trail_byte());
}

} // verus!
