//! Identities (`Name <email> <epoch> <tz>`): splitting, validation and time zone fields.
use vstd::prelude::*;
use crate::text::{
    all_digits, char_is_ws, lead_len, range_all_digits, byte_len, char_index_at_byte, chars_of, find, find_at, int_text, is_ws, lemma_find_from_props,
    lemma_rfind_upto_props, occurs_at, parse_i64, push_all, push_range, rfind, rfind_all, string_all, string_of,
    trim, trim_bounds, trim_end, trim_start, ws_kept, ws_lead,
};

verus! {

/// Position of the first `<` and of the last `>` of `a`, when the `>` comes after the `<`.
pub open spec fn angle_brackets(a: Seq<char>) -> Option<(int, int)> {
    match (find(a, seq!['<']), rfind(a, seq!['>'])) {
        (Some(lt), Some(gt)) => if gt <= lt {
            None
        } else {
            Some((lt, gt))
        },
        _ => None,
    }
}

/// Finds the first `<` and the last `>` of `v`, when the `>` comes after the `<`.
fn find_angle_brackets(v: &Vec<char>) -> (r: Option<(usize, usize)>)
    ensures
        match r {
            Some((lt, gt)) => angle_brackets(v@) == Some((lt as int, gt as int)) && lt < gt < v@.len(),
            None => angle_brackets(v@) is None,
        },
{
    let open = vec!['<'];
    let close = vec!['>'];
    assert(open@ =~= seq!['<']);
    assert(close@ =~= seq!['>']);
    let lt = match find_at(v, &open, 0) {
        Some(k) => k,
        None => {
            return None;
        },
    };
    let gt = match rfind_all(v, &close) {
        Some(k) => k,
        None => {
            return None;
        },
    };
    if gt <= lt {
        return None;
    }
    proof {
        lemma_rfind_upto_props(v@, close@, v@.len() - close@.len());
        assert(occurs_at(v@, close@, gt as int));
    }
    Some((lt, gt))
}

/// Name, email and date part of a stored author line `Name <email> <epoch> <tz>`: the name
/// without trailing whitespace, the email trimmed, and what follows `>` (without leading
/// whitespace) unless that is empty.
pub open spec fn author_split(a: Seq<char>) -> Option<(Seq<char>, Seq<char>, Option<Seq<char>>)> {
    match angle_brackets(a) {
        Some((lt, gt)) => {
            let after = trim_start(a.subrange(gt + 1, a.len() as int));
            Some(
                (
                    trim_end(a.take(lt)),
                    trim(a.subrange(lt + 1, gt)),
                    if after.len() == 0 {
                        None
                    } else {
                        Some(after)
                    },
                ),
            )
        },
        None => None,
    }
}

/// Splits a stored author line (`Name <email> <epoch> <tz>`) into name, email and the date
/// part, if any.
pub fn split_stored_author_line(author: &str) -> (r: Result<(String, String, Option<String>), String>)
    ensures
        match r {
            Ok((n, e, d)) => author_split(author@) == Some(
                (
                    n@,
                    e@,
                    match d {
                        Some(d) => Some(d@),
                        None => None,
                    },
                ),
            ),
            Err(msg) => author_split(author@) is None && msg@ == "malformed author line"@,
        },
{
    let v = chars_of(author);
    let (lt, gt) = match find_angle_brackets(&v) {
        Some(p) => p,
        None => {
            return Err("malformed author line".to_owned());
        },
    };
    let n = v.len();
    let kn = ws_kept(&v, 0, lt);
    assert(v@.subrange(0, kn as int) =~= trim_end(v@.take(lt as int)));
    let name = string_of(&v, 0, kn);
    let (ea, eb) = trim_bounds(&v, lt + 1, gt);
    let email = string_of(&v, ea, eb);
    let lead = ws_lead(&v, gt + 1, n);
    proof {
        crate::text::lemma_lead_len_le(v@.subrange(gt + 1, n as int), crate::text::ws());
    }
    assert(v@.subrange(gt + 1 + lead, n as int) =~= trim_start(v@.subrange(gt + 1, n as int)));
    let date = if gt + 1 + lead == n {
        None
    } else {
        Some(string_of(&v, gt + 1 + lead, n))
    };
    Ok((name, email, date))
}

/// The environment a commit hook sees for an author line: `GIT_AUTHOR_NAME`,
/// `GIT_AUTHOR_EMAIL`, and `GIT_AUTHOR_DATE` (`@<epoch> <tz>`) when the line has a date.
pub open spec fn author_env(a: Seq<char>) -> Option<Seq<(Seq<char>, Seq<char>)>> {
    match author_split(a) {
        Some((n, e, d)) => {
            let base = seq![("GIT_AUTHOR_NAME"@, n), ("GIT_AUTHOR_EMAIL"@, e)];
            Some(
                match d {
                    Some(d) => base.push(("GIT_AUTHOR_DATE"@, seq!['@'] + d)),
                    None => base,
                },
            )
        },
        None => None,
    }
}

pub open spec fn pair_views(v: Seq<(String, String)>) -> Seq<(Seq<char>, Seq<char>)> {
    v.map_values(|p: (String, String)| (p.0@, p.1@))
}

/// The `GIT_AUTHOR_*` variables for hooks, from a stored author line.
pub fn author_env_for_commit_hooks(author_line: &str) -> (r: Result<Vec<(String, String)>, String>)
    ensures
        match r {
            Ok(env) => author_env(author_line@) == Some(pair_views(env@)),
            Err(msg) => author_env(author_line@) is None && msg@ == "malformed author line"@,
        },
{
    let (name, email, date) = match split_stored_author_line(author_line) {
        Ok(p) => p,
        Err(e) => {
            return Err(e);
        },
    };
    let mut out: Vec<(String, String)> = Vec::new();
    out.push(("GIT_AUTHOR_NAME".to_owned(), name));
    out.push(("GIT_AUTHOR_EMAIL".to_owned(), email));
    match date {
        Some(d) => {
            let mut at = vec!['@'];
            let dv = chars_of(d.as_str());
            push_all(&mut at, &dv);
            assert(at@ =~= seq!['@'] + d@);
            let ghost before = out@;
            out.push(("GIT_AUTHOR_DATE".to_owned(), string_all(&at)));
            assert(pair_views(out@) =~= pair_views(before).push(("GIT_AUTHOR_DATE"@, seq!['@'] + d@)));
        },
        None => {},
    }
    assert(pair_views(out@).len() >= 2);
    Ok(out)
}

/// The characters an ident name may not consist of alone.
pub open spec fn is_ident_filler(c: char) -> bool {
    c == '.' || c == ',' || c == ';' || c == '<' || c == '>' || c == '\'' || c == '"' || c == ' '
}

/// The error for an ident name, if any: an empty name, or one made only of `.,;<>'"` and
/// spaces.
pub open spec fn ident_name_error(name: Seq<char>, kind: Seq<char>) -> Option<Seq<char>> {
    if name.len() == 0 {
        Some("empty ident name (for <"@ + kind + ">) not allowed"@)
    } else if forall|i: int| 0 <= i < name.len() ==> is_ident_filler(#[trigger] name[i]) {
        Some("invalid ident name: '"@ + name + "'"@)
    } else {
        None
    }
}

/// Checks that an ident name is not empty and not made only of punctuation and spaces.
pub fn validate_ident_name(name: &str, kind: &str) -> (r: Result<(), String>)
    ensures
        match r {
            Ok(()) => ident_name_error(name@, kind@) is None,
            Err(msg) => ident_name_error(name@, kind@) == Some(msg@),
        },
{
    let v = chars_of(name);
    let mut k: usize = 0;
    while k < v.len()
        invariant
            v@ == name@,
            k <= v@.len(),
            forall|i: int| 0 <= i < k ==> is_ident_filler(#[trigger] v@[i]),
        decreases v@.len() - k,
    {
        let c = v[k];
        if !(c == '.' || c == ',' || c == ';' || c == '<' || c == '>' || c == '\'' || c == '"' || c == ' ') {
            assert(!is_ident_filler(name@[k as int]));
            return Ok(());
        }
        k = k + 1;
    }
    if v.len() == 0 {
        let mut m = chars_of("empty ident name (for <");
        let kv = chars_of(kind);
        push_all(&mut m, &kv);
        let tail = chars_of(">) not allowed");
        push_all(&mut m, &tail);
        assert(m@ =~= "empty ident name (for <"@ + kind@ + ">) not allowed"@);
        Err(string_all(&m))
    } else {
        let mut m = chars_of("invalid ident name: '");
        push_all(&mut m, &v);
        let tail = chars_of("'");
        push_all(&mut m, &tail);
        assert(m@ =~= "invalid ident name: '"@ + name@ + "'"@);
        Err(string_all(&m))
    }
}

/// Parses `--author="Name <email>"`: the name and the email, both trimmed. The name must not
/// be empty and a space must come before `<` (unless `<` starts the value).
pub open spec fn force_author_spec(a: Seq<char>) -> Result<(Seq<char>, Seq<char>), Seq<char>> {
    match angle_brackets(a) {
        None => Err("malformed --author parameter"@),
        Some((lt, gt)) => {
            let name = trim(a.take(lt));
            if name.len() == 0 {
                Err("empty ident name (for <author>) not allowed"@)
            } else if lt > 0 && a[lt - 1] != ' ' {
                Err("malformed --author parameter"@)
            } else {
                Ok((name, trim(a.subrange(lt + 1, gt))))
            }
        },
    }
}

pub fn parse_force_author_parameter(author: &str) -> (r: Result<(String, String), String>)
    ensures
        match r {
            Ok((n, e)) => force_author_spec(author@) == Ok::<(Seq<char>, Seq<char>), Seq<char>>((n@, e@)),
            Err(msg) => force_author_spec(author@) == Err::<(Seq<char>, Seq<char>), Seq<char>>(msg@),
        },
{
    let v = chars_of(author);
    let (lt, gt) = match find_angle_brackets(&v) {
        Some(p) => p,
        None => {
            return Err("malformed --author parameter".to_owned());
        },
    };
    let (na, nb) = trim_bounds(&v, 0, lt);
    assert(v@.subrange(0, lt as int) =~= v@.take(lt as int));
    if na == nb {
        return Err("empty ident name (for <author>) not allowed".to_owned());
    }
    if lt > 0 && v[lt - 1] != ' ' {
        return Err("malformed --author parameter".to_owned());
    }
    let (ea, eb) = trim_bounds(&v, lt + 1, gt);
    Ok((string_of(&v, na, nb), string_of(&v, ea, eb)))
}

/// The error for an author line taken from the commit being amended, if any: it must split,
/// and have a valid name, an email and a date.
pub open spec fn amend_author_error(a: Seq<char>) -> Option<Seq<char>> {
    match author_split(a) {
        None => Some("commit has malformed author line"@),
        Some((n, e, d)) => if n.len() == 0 {
            Some("empty ident name (for <author>) not allowed"@)
        } else if ident_name_error(n, "author"@) is Some {
            ident_name_error(n, "author"@)
        } else if e.len() == 0 || d is None {
            Some("empty ident name (for <author>) not allowed"@)
        } else {
            None
        },
    }
}

/// Rejects an empty or malformed author identity when amending.
pub fn validate_amend_source_author(author: &str) -> (r: Result<(), String>)
    ensures
        match r {
            Ok(()) => amend_author_error(author@) is None,
            Err(msg) => amend_author_error(author@) == Some(msg@),
        },
{
    let (name, email, date) = match split_stored_author_line(author) {
        Ok(p) => p,
        Err(_) => {
            return Err("commit has malformed author line".to_owned());
        },
    };
    let nv = chars_of(name.as_str());
    if nv.len() == 0 {
        return Err("empty ident name (for <author>) not allowed".to_owned());
    }
    match validate_ident_name(name.as_str(), "author") {
        Ok(()) => {},
        Err(e) => {
            return Err(e);
        },
    }
    let ev = chars_of(email.as_str());
    if ev.len() == 0 || date.is_none() {
        return Err("empty ident name (for <author>) not allowed".to_owned());
    }
    Ok(())
}

// ----- time zones ----------------------------------------------------------------------

/// The byte offset 3 of `raw` falls on a character boundary.
pub open spec fn boundary_at_3(raw: Seq<char>) -> bool {
    exists|k: int| 0 <= k <= raw.len() && #[trigger] byte_len(raw.take(k)) == 3
}

/// Slicing a five-byte `±hhmm` field at byte 3 must be possible (else `str` slicing panics).
pub open spec fn tz_sliceable(raw: Seq<char>) -> bool {
    byte_len(raw) == 5 && raw.len() > 0 && (raw[0] == '+' || raw[0] == '-') ==> boundary_at_3(raw)
}

/// `±hhmm` as the integer `±(hh * 100 + mm)`: five bytes, a sign, and two integers of two
/// bytes each (as `str::parse::<i32>` reads them).
pub open spec fn tz_value(raw: Seq<char>) -> Option<int> {
    if byte_len(raw) != 5 || raw.len() == 0 || !(raw[0] == '+' || raw[0] == '-') {
        None
    } else {
        let k = choose|k: int| 0 <= k <= raw.len() && #[trigger] byte_len(raw.take(k)) == 3;
        match (int_text(raw.subrange(1, k)), int_text(raw.subrange(k, raw.len() as int))) {
            (Some(h), Some(m)) => Some(if raw[0] == '-' { -(h * 100 + m) } else { h * 100 + m }),
            _ => None,
        }
    }
}

pub proof fn lemma_digits_two(d: Seq<char>)
    requires
        d.len() <= 2,
        crate::text::all_digits(d),
    ensures
        crate::text::dec_val(d) <= 99,
{
    reveal_with_fuel(crate::text::dec_val, 3);
    if d.len() > 0 {
        assert(crate::text::is_digit(d.last()));
        if d.len() == 2 {
            assert(crate::text::is_digit(d.drop_last().last()));
            assert(d.drop_last().drop_last().len() == 0);
        } else {
            assert(d.drop_last().len() == 0);
        }
    }
}

/// A signed decimal of at most two characters lies within ±99.
pub proof fn lemma_int_text_two(s: Seq<char>)
    requires
        s.len() <= 2,
    ensures
        match int_text(s) {
            Some(x) => -99 <= x <= 99,
            None => true,
        },
{
    if s.len() > 0 && (s[0] == '-' || s[0] == '+') {
        if s.drop_first().len() > 0 && crate::text::all_digits(s.drop_first()) {
            lemma_digits_two(s.drop_first());
        }
    } else if s.len() > 0 && crate::text::all_digits(s) {
        lemma_digits_two(s);
    }
}

/// Parses a `±hhmm` time zone into `±(hh * 100 + mm)`.
pub fn parse_tz_hhmm(raw: &str) -> (r: Option<i32>)
    requires
        tz_sliceable(raw@),
    ensures
        match r {
            Some(z) => tz_value(raw@) == Some(z as int),
            None => tz_value(raw@) is None,
        },
{
    let nbytes = raw.as_bytes().len();
    let v = chars_of(raw);
    if nbytes != 5 || v.len() == 0 || !(v[0] == '+' || v[0] == '-') {
        return None;
    }
    let k = match char_index_at_byte(&v, 3) {
        Some(k) => k,
        None => {
            return None;
        },
    };
    proof {
        let c = choose|j: int| 0 <= j <= v@.len() && #[trigger] byte_len(v@.take(j)) == 3;
        if c != k {
            if c < k {
                crate::text::lemma_byte_len_mono(v@, c + 1, k as int);
                crate::text::lemma_byte_len_take(v@, c);
            } else {
                crate::text::lemma_byte_len_mono(v@, k + 1, c);
                crate::text::lemma_byte_len_take(v@, k as int);
            }
        }
        assert(v@.take(0) =~= Seq::<char>::empty());
        assert(v@.take(1) =~= seq![v@[0]]);
        crate::text::lemma_byte_len_take(v@, 0);
        if k == 0 {
            assert(false);
        }
        crate::text::lemma_byte_len_mono(v@, 1, k as int);
        crate::text::lemma_byte_len_mono(v@, k as int, v@.len() as int);
        assert(v@.take(v@.len() as int) =~= v@);
    }
    let n = v.len();
    proof {
        lemma_int_text_two(v@.subrange(1, k as int));
        lemma_int_text_two(v@.subrange(k as int, n as int));
    }
    let h = match parse_i64(&v, 1, k) {
        Some(h) => h,
        None => {
            return None;
        },
    };
    let m = match parse_i64(&v, k, n) {
        Some(m) => m,
        None => {
            return None;
        },
    };
    let hm = h * 100 + m;
    if v[0] == '-' {
        Some(-(hm as i32))
    } else {
        Some(hm as i32)
    }
}

pub open spec fn not_ws() -> spec_fn(char) -> bool {
    |c: char| !is_ws(c)
}

/// The two whitespace-separated words of `raw`, when it has exactly two
/// (what `split_whitespace` yields).
pub open spec fn two_words(raw: Seq<char>) -> Option<(Seq<char>, Seq<char>)> {
    let t = trim(raw);
    let i = lead_len(t, not_ws()) as int;
    let rest = trim_start(t.subrange(i, t.len() as int));
    if t.len() > 0 && rest.len() > 0 && (forall|j: int| 0 <= j < rest.len() ==> !is_ws(#[trigger] rest[j])) {
        Some((t.take(i), rest))
    } else {
        None
    }
}

/// `<epoch> <tz>`: a word of ASCII digits and a `±hhmm` time zone, and nothing else.
pub open spec fn epoch_with_tz(raw: Seq<char>) -> bool {
    match two_words(raw) {
        Some((e, z)) => all_digits(e) && tz_value(z) is Some,
        None => false,
    }
}

/// Number of leading non-whitespace characters of `v[lo..hi]`.
pub fn word_len(v: &Vec<char>, lo: usize, hi: usize) -> (n: usize)
    requires
        lo <= hi <= v@.len(),
    ensures
        n == lead_len(v@.subrange(lo as int, hi as int), not_ws()),
        n <= hi - lo,
{
    let mut k = lo;
    while k < hi && !char_is_ws(v[k])
        invariant
            lo <= k <= hi <= v@.len(),
            lead_len(v@.subrange(lo as int, hi as int), not_ws()) == (k - lo) + lead_len(
                v@.subrange(k as int, hi as int),
                not_ws(),
            ),
        decreases hi - k,
    {
        assert(v@.subrange(k as int, hi as int).drop_first() =~= v@.subrange(k + 1, hi as int));
        k = k + 1;
    }
    k - lo
}

/// Whether `v[lo..hi]` holds no whitespace.
fn no_ws_in(v: &Vec<char>, lo: usize, hi: usize) -> (r: bool)
    requires
        lo <= hi <= v@.len(),
    ensures
        r == forall|j: int| lo <= j < hi ==> !is_ws(#[trigger] v@[j]),
{
    let mut k = lo;
    while k < hi
        invariant
            lo <= k <= hi <= v@.len(),
            forall|j: int| lo <= j < k ==> !is_ws(#[trigger] v@[j]),
        decreases hi - k,
    {
        if char_is_ws(v[k]) {
            return false;
        }
        k = k + 1;
    }
    true
}

/// Where the two words of `v` lie, when it has exactly two: `v[a..i]` and `v[s..b]`.
#[verifier::spinoff_prover]
fn two_word_bounds(v: &Vec<char>) -> (r: Option<(usize, usize, usize, usize)>)
    ensures
        match r {
            Some((a, i, s, b)) => a <= i <= s <= b <= v@.len() && two_words(v@) == Some(
                (v@.subrange(a as int, i as int), v@.subrange(s as int, b as int)),
            ),
            None => two_words(v@) is None,
        },
{
    let (a, b) = trim_bounds(v, 0, v.len());
    assert(v@.subrange(0, v@.len() as int) =~= v@);
    let ghost t = trim(v@);
    assert(v@.subrange(a as int, b as int) == t);
    if a == b {
        return None;
    }
    let i = a + word_len(v, a, b);
    let l = ws_lead(v, i, b);
    proof {
        crate::text::lemma_lead_len_le(v@.subrange(i as int, b as int), crate::text::ws());
        assert(t.subrange(i - a, t.len() as int) =~= v@.subrange(i as int, b as int));
        assert(v@.subrange(i + l, b as int) =~= trim_start(v@.subrange(i as int, b as int)));
    }
    let s = i + l;
    let ghost rest = v@.subrange(s as int, b as int);
    assert(rest == trim_start(t.subrange(i - a, t.len() as int)));
    if s == b {
        return None;
    }
    if !no_ws_in(v, s, b) {
        proof {
            let j = choose|j: int| s <= j < b && is_ws(#[trigger] v@[j]);
            assert(rest[j - s] == v@[j]);
        }
        return None;
    }
    assert forall|j: int| 0 <= j < rest.len() implies !is_ws(#[trigger] rest[j]) by {
        assert(rest[j] == v@[s + j]);
    }
    assert(t.take(i - a) =~= v@.subrange(a as int, i as int));
    Some((a, i, s, b))
}

/// Whether `raw` is `<epoch> <tz>` (digits, then a `±hhmm` zone, and nothing else).
pub fn is_epoch_with_tz(raw: &str) -> (r: bool)
    requires
        match two_words(raw@) {
            Some((e, z)) => all_digits(e) ==> tz_sliceable(z),
            None => true,
        },
    ensures
        r == epoch_with_tz(raw@),
{
    let v = chars_of(raw);
    match two_word_bounds(&v) {
        None => false,
        Some((a, i, s, b)) => {
            if !range_all_digits(&v, a, i) {
                return false;
            }
            let z = string_of(&v, s, b);
            parse_tz_hhmm(z.as_str()).is_some()
        },
    }
}

/// `Name <email>` from an ident line: the name without trailing whitespace and what lies
/// between the first `<` and the first `>`; the whole line when these are missing or out of
/// order.
pub open spec fn name_email_of(ident: Seq<char>) -> Seq<char> {
    match (find(ident, seq!['<']), find(ident, seq!['>'])) {
        (Some(lt), Some(gt)) => if gt > lt {
            trim_end(ident.take(lt)) + " <"@ + ident.subrange(lt + 1, gt) + ">"@
        } else {
            ident
        },
        _ => ident,
    }
}

/// Renders an ident (`Name <email> <ts> <tz>`) as `Name <email>`.
pub fn ident_name_email(ident: &str) -> (r: String)
    ensures
        r@ == name_email_of(ident@),
{
    let v = chars_of(ident);
    let open = vec!['<'];
    let close = vec!['>'];
    assert(open@ =~= seq!['<']);
    assert(close@ =~= seq!['>']);
    let lt = match find_at(&v, &open, 0) {
        Some(k) => k,
        None => {
            return ident.to_owned();
        },
    };
    let gt = match find_at(&v, &close, 0) {
        Some(k) => k,
        None => {
            return ident.to_owned();
        },
    };
    if gt <= lt {
        return ident.to_owned();
    }
    proof {
        lemma_find_from_props(v@, close@, 0);
        assert(occurs_at(v@, close@, gt as int));
    }
    let kn = ws_kept(&v, 0, lt);
    let mut out: Vec<char> = Vec::new();
    push_range(&mut out, &v, 0, kn);
    assert(out@ =~= trim_end(v@.take(lt as int)));
    let mid = chars_of(" <");
    push_all(&mut out, &mid);
    push_range(&mut out, &v, lt + 1, gt);
    let end = chars_of(">");
    push_all(&mut out, &end);
    assert(out@ =~= trim_end(v@.take(lt as int)) + " <"@ + v@.subrange(lt + 1, gt as int) + ">"@);
    string_all(&out)
}

// ----- moving an identity's time forward ------------------------------------------------

pub open spec fn space_or_tab() -> spec_fn(char) -> bool {
    |c: char| c == ' ' || c == '\t'
}

/// `s.get(lo..hi)` on byte offsets: the characters between them, when both fall on character
/// boundaries in order.
pub open spec fn byte_range_text(s: Seq<char>, lo: int, hi: int) -> Option<Seq<char>> {
    if lo <= hi && crate::text::is_boundary(s, lo) && crate::text::is_boundary(s, hi) {
        Some(s.subrange(crate::text::char_at_byte(s, lo), crate::text::char_at_byte(s, hi)))
    } else {
        None
    }
}

/// The identity with its Unix time one second later (`saturating_add`), keeping everything up
/// to the whitespace after the `>` and the time zone text. `times` is what the signature
/// parser found: the seconds and the byte range of the `±hhmm` field; without it the identity
/// is kept as it is.
pub open spec fn bumped_ident(ident: Seq<char>, times: Option<(i64, usize, usize)>) -> Result<Seq<char>, Seq<char>> {
    match times {
        None => Ok(ident),
        Some((secs, lo, hi)) => match rfind(ident, seq!['>']) {
            None => Err("malformed identity line (missing '>'): "@ + ident),
            Some(gt) => {
                let rest = ident.subrange(gt + 1, ident.len() as int);
                let i = gt + 1 + lead_len(rest, space_or_tab());
                match byte_range_text(ident, lo as int, hi as int) {
                    None => Err("malformed identity timezone in: "@ + ident),
                    Some(tz) => {
                        let next = if secs == i64::MAX { secs as int } else { secs + 1 };
                        Ok(ident.take(i) + crate::text::int_text_of(next) + " "@ + tz)
                    },
                }
            },
        },
    }
}

/// Moves the Unix time of a `Name <email> <seconds> <tz>` identity one second forward (see
/// `bumped_ident`).
pub fn bump_ident_unix_seconds(ident: &str, times: Option<(i64, usize, usize)>) -> (r: Result<String, String>)
    ensures
        match r {
            Ok(s) => bumped_ident(ident@, times) == Ok::<Seq<char>, Seq<char>>(s@),
            Err(e) => bumped_ident(ident@, times) == Err::<Seq<char>, Seq<char>>(e@),
        },
{
    let (secs, lo, hi) = match times {
        None => {
            return Ok(string_all(&chars_of(ident)));
        },
        Some(t) => t,
    };
    let v = chars_of(ident);
    let gtv = vec!['>'];
    assert(gtv@ =~= seq!['>']);
    let gt = match rfind_all(&v, &gtv) {
        None => {
            let mut msg = chars_of("malformed identity line (missing '>'): ");
            push_all(&mut msg, &v);
            return Err(string_all(&msg));
        },
        Some(g) => g,
    };
    proof {
        lemma_rfind_upto_props(v@, gtv@, v@.len() - 1);
    }
    let n = v.len();
    let mut i = gt + 1;
    while i < n && (v[i] == ' ' || v[i] == '\t')
        invariant
            gt + 1 <= i <= n,
            n == v@.len(),
            forall|q: int| gt + 1 <= q < i ==> #[trigger] v@[q] == ' ' || v@[q] == '\t',
        decreases n - i,
    {
        i = i + 1;
    }
    proof {
        let rest = v@.subrange(gt + 1, n as int);
        assert forall|q: int| 0 <= q < i - (gt + 1) implies #[trigger] (space_or_tab())(rest[q]) by {
            assert(rest[q] == v@[gt + 1 + q]);
        }
        if i < n {
            assert(rest[i - (gt + 1)] == v@[i as int]);
        }
        crate::text::lemma_lead_len_le(rest, space_or_tab());
        let l = lead_len(rest, space_or_tab()) as int;
        let k = i - (gt + 1);
        if l < k {
            assert((space_or_tab())(rest[l]));
        } else if k < l {
            assert((space_or_tab())(rest[k]));
        }
        assert(l == k);
    }
    let klo = char_index_at_byte(&v, lo);
    let khi = char_index_at_byte(&v, hi);
    match (klo, khi) {
        (Some(a), Some(b)) if lo <= hi => {
            proof {
                crate::text::lemma_char_at_byte(v@, a as int, lo as int);
                crate::text::lemma_char_at_byte(v@, b as int, hi as int);
                if b < a {
                    crate::text::lemma_byte_len_mono(v@, b as int, a as int);
                }
            }
            let next: i64 = if secs == i64::MAX { secs } else { secs + 1 };
            let mut out: Vec<char> = Vec::new();
            push_range(&mut out, &v, 0, i);
            crate::text::push_i64_text(&mut out, next);
            out.push(' ');
            push_range(&mut out, &v, a, b);
            proof {
                reveal_strlit(" ");
            }
            assert(out@ =~= v@.take(i as int) + crate::text::int_text_of(next as int) + " "@ + v@.subrange(
                a as int,
                b as int,
            ));
            Ok(string_all(&out))
        },
        _ => {
            proof {
                if lo <= hi && crate::text::is_boundary(v@, lo as int) && crate::text::is_boundary(v@, hi as int) {
                    let w = crate::text::char_at_byte(v@, lo as int);
                    let x = crate::text::char_at_byte(v@, hi as int);
                    assert(byte_len(v@.take(w)) == lo);
                    assert(byte_len(v@.take(x)) == hi);
                }
            }
            let mut msg = chars_of("malformed identity timezone in: ");
            push_all(&mut msg, &v);
            Err(string_all(&msg))
        },
    }
}

} // verus!
