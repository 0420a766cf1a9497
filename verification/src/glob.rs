//! `*` / `?` wildcard matching over bytes, as used by `clean -e`.
use vstd::prelude::*;
use vstd::string::StringSliceAdditionalSpecFns;

verus! {

/// Wildcard matching in its usual sense: `*` matches any run of bytes, `?` any one byte,
/// every other pattern byte matches itself.
pub open spec fn wildcard(t: Seq<u8>, p: Seq<u8>) -> bool
    decreases t.len() + p.len(),
{
    if p.len() == 0 {
        t.len() == 0
    } else if p[0] == 42u8 {
        wildcard(t, p.drop_first()) || (t.len() > 0 && wildcard(t.drop_first(), p))
    } else {
        t.len() > 0 && (p[0] == 63u8 || p[0] == t[0]) && wildcard(t.drop_first(), p.drop_first())
    }
}

/// One byte of the pattern accepts one byte of the text literally (`?`, or the same byte).
pub open spec fn accepts(pc: u8, tc: u8) -> bool {
    pc == 63u8 || pc == tc
}

/// The matcher's run from state `(ti, pi, sp, st)`: `ti` / `pi` are the positions in text and
/// pattern, `sp` the position of the last `*` taken as a wildcard (`-1` when none), `st` the
/// text position that star currently stands in front of. A `*` is taken as a wildcard first;
/// otherwise a pattern byte that accepts the text byte is consumed; otherwise the last wildcard
/// absorbs one more byte; otherwise the match fails. At the end of the text only trailing `*`
/// may remain.
spec fn glob_run(t: Seq<u8>, p: Seq<u8>, ti: int, pi: int, sp: int, st: int) -> bool
    decreases t.len() - st, t.len() - ti, p.len() - pi,
{
    if !(0 <= st <= ti <= t.len() && 0 <= pi <= p.len() && -1 <= sp < pi) {
        false
    } else if ti == t.len() {
        forall|k: int| pi <= k < p.len() ==> p[k] == 42u8
    } else if pi < p.len() && p[pi] == 42u8 {
        glob_run(t, p, ti, pi + 1, pi, ti)
    } else if pi < p.len() && accepts(p[pi], t[ti]) {
        glob_run(t, p, ti + 1, pi + 1, sp, st)
    } else if sp >= 0 {
        glob_run(t, p, st + 1, sp + 1, sp, st + 1)
    } else {
        false
    }
}

/// The matcher's run from its start.
spec fn glob_spec(t: Seq<u8>, p: Seq<u8>) -> bool {
    glob_run(t, p, 0, 0, -1, 0)
}

/// Simple glob matching supporting `*` and `?`, byte by byte.
pub fn glob_match(text: &str, pattern: &str) -> (res: bool)
    ensures
        res == wildcard(text.spec_bytes(), pattern.spec_bytes()),
{
    let t = text.as_bytes();
    let p = pattern.as_bytes();
    let tl = t.len();
    let pl = p.len();
    let mut ti: usize = 0;
    let mut pi: usize = 0;
    let mut star_pi: usize = usize::MAX;
    let mut star_ti: usize = 0;
    proof {
        assert(t@.subrange(0, t@.len() as int) =~= t@);
        assert(p@.subrange(0, p@.len() as int) =~= p@);
        lemma_glob_run_wildcard(t@, p@, 0, 0, -1, 0);
    }
    while ti < tl
        invariant
            tl == t@.len(),
            pl == p@.len(),
            t@ == text.spec_bytes(),
            p@ == pattern.spec_bytes(),
            glob_spec(t@, p@) == wildcard(t@, p@),
            star_ti <= ti <= tl,
            pi <= pl,
            star_pi == usize::MAX || star_pi < pi,
            glob_run(t@, p@, ti as int, pi as int, if star_pi == usize::MAX { -1 } else { star_pi as int }, star_ti as int)
                == glob_spec(t@, p@),
        decreases tl - star_ti, tl - ti, pl - pi,
    {
        if pi < pl && p[pi] == 42u8 {
            star_pi = pi;
            star_ti = ti;
            pi = pi + 1;
        } else if pi < pl && (p[pi] == 63u8 || p[pi] == t[ti]) {
            ti = ti + 1;
            pi = pi + 1;
        } else if star_pi != usize::MAX {
            pi = star_pi + 1;
            star_ti = star_ti + 1;
            ti = star_ti;
        } else {
            assert(!glob_run(t@, p@, ti as int, pi as int, -1, star_ti as int));
            assert(!glob_spec(t@, p@));
            return false;
        }
    }
    let ghost pi0 = pi;
    while pi < pl && p[pi] == 42u8
        invariant
            pl == p@.len(),
            pi0 <= pi <= pl,
            forall|k: int| pi0 <= k < pi ==> p@[k] == 42u8,
        decreases pl - pi,
    {
        pi = pi + 1;
    }
    pi == pl
}

/// Invariant of the matcher: what remains to be decided is whether some
/// suffix of the text starting at or after `st` matches the pattern after the last wildcard,
/// the text between `st` and `ti` having matched the (star-free) pattern between them.
pub open spec fn run_inv(t: Seq<u8>, p: Seq<u8>, ti: int, pi: int, sp: int, st: int) -> bool {
    &&& 0 <= st <= ti <= t.len()
    &&& 0 <= pi <= p.len()
    &&& -1 <= sp < pi
    &&& if sp < 0 {
        wildcard(t, p) == wildcard(t.subrange(ti, t.len() as int), p.subrange(pi, p.len() as int))
    } else {
        &&& p[sp] == 42u8
        &&& pi - (sp + 1) == ti - st
        &&& literal_prefix(t.subrange(st, ti), p.subrange(sp + 1, pi))
        &&& star_free(p.subrange(sp + 1, pi))
        &&& wildcard(t, p) == (exists|j: int|
            st <= j <= t.len() && #[trigger] wildcard(t.subrange(j, t.len() as int), p.subrange(sp + 1, p.len() as int)))
    }
}

/// `q` accepts `s` byte by byte.
pub open spec fn literal_prefix(s: Seq<u8>, q: Seq<u8>) -> bool {
    &&& s.len() == q.len()
    &&& forall|k: int| 0 <= k < q.len() ==> #[trigger] accepts(q[k], s[k])
}

/// `q` holds no `*`.
pub open spec fn star_free(q: Seq<u8>) -> bool {
    forall|k: int| 0 <= k < q.len() ==> q[k] != 42u8
}

/// A star-free prefix of the pattern consumes exactly its length of text.
proof fn lemma_literal_split(s: Seq<u8>, lit: Seq<u8>, rest: Seq<u8>)
    requires
        forall|k: int| 0 <= k < lit.len() ==> lit[k] != 42u8,
    ensures
        wildcard(s, lit + rest) == (s.len() >= lit.len() && literal_prefix(
            s.subrange(0, lit.len() as int),
            lit,
        ) && wildcard(s.subrange(lit.len() as int, s.len() as int), rest)),
    decreases lit.len(),
{
    if lit.len() == 0 {
        assert(lit + rest =~= rest);
        assert(s.subrange(0, s.len() as int) =~= s);
    } else {
        let q = lit + rest;
        assert(q[0] == lit[0]);
        assert(q.drop_first() =~= lit.drop_first() + rest);
        if s.len() > 0 {
            lemma_literal_split(s.drop_first(), lit.drop_first(), rest);
            if s.len() >= lit.len() {
                assert(s.drop_first().subrange(lit.len() - 1, s.len() - 1) =~= s.subrange(
                    lit.len() as int,
                    s.len() as int,
                ));
                let a = s.subrange(0, lit.len() as int);
                let b = s.drop_first().subrange(0, lit.len() - 1);
                assert(literal_prefix(a, lit) == (accepts(lit[0], s[0]) && literal_prefix(
                    b,
                    lit.drop_first(),
                ))) by {
                    if literal_prefix(a, lit) {
                        assert forall|k: int| 0 <= k < lit.len() - 1 implies #[trigger] accepts(lit.drop_first()[k], b[k]) by {
                            assert(lit.drop_first()[k] == lit[k + 1]);
                            assert(b[k] == a[k + 1]);
                            assert(accepts(lit[k + 1], a[k + 1]));
                        }
                    }
                    if accepts(lit[0], s[0]) && literal_prefix(b, lit.drop_first()) {
                        assert forall|k: int| 0 <= k < lit.len() implies #[trigger] accepts(lit[k], a[k]) by {
                            if k > 0 {
                                assert(lit.drop_first()[k - 1] == lit[k]);
                                assert(b[k - 1] == a[k]);
                                assert(accepts(lit.drop_first()[k - 1], b[k - 1]));
                            } else {
                                assert(a[0] == s[0]);
                            }
                        }
                    }
                }
            }
        }
    }
}

/// The empty text matches exactly the all-`*` patterns.
proof fn lemma_wildcard_empty(q: Seq<u8>)
    ensures
        wildcard(Seq::<u8>::empty(), q) == (forall|k: int| 0 <= k < q.len() ==> q[k] == 42u8),
    decreases q.len(),
{
    if q.len() > 0 {
        lemma_wildcard_empty(q.drop_first());
        if q[0] == 42u8 && wildcard(Seq::<u8>::empty(), q.drop_first()) {
            assert forall|k: int| 0 <= k < q.len() implies q[k] == 42u8 by {
                if k > 0 {
                    assert(q.drop_first()[k - 1] == 42u8);
                }
            }
        }
        if forall|k: int| 0 <= k < q.len() ==> q[k] == 42u8 {
            assert forall|k: int| 0 <= k < q.drop_first().len() implies q.drop_first()[k]
                == 42u8 by {
                assert(q[k + 1] == 42u8);
            }
        }
    }
}

/// A leading `*` matches when the rest of the pattern matches some suffix of the text.
proof fn lemma_wildcard_star(s: Seq<u8>, q: Seq<u8>)
    ensures
        wildcard(s, seq![42u8] + q) == (exists|j: int|
            0 <= j <= s.len() && #[trigger] wildcard(s.subrange(j, s.len() as int), q)),
    decreases s.len(),
{
    let sq = seq![42u8] + q;
    assert(sq[0] == 42u8);
    assert(sq.drop_first() =~= q);
    assert(s.subrange(0, s.len() as int) =~= s);
    if wildcard(s, q) {
        assert(wildcard(s.subrange(0, s.len() as int), q));
    }
    if s.len() > 0 {
        let s1 = s.drop_first();
        lemma_wildcard_star(s1, q);
        if wildcard(s, sq) {
            if !wildcard(s, q) {
                let j = choose|j: int| 0 <= j <= s1.len() && #[trigger] wildcard(s1.subrange(j, s1.len() as int), q);
                assert(s1.subrange(j, s1.len() as int) =~= s.subrange(j + 1, s.len() as int));
                assert(wildcard(s.subrange(j + 1, s.len() as int), q));
            }
        }
        if exists|j: int| 0 <= j <= s.len() && #[trigger] wildcard(s.subrange(j, s.len() as int), q) {
            let j = choose|j: int| 0 <= j <= s.len() && #[trigger] wildcard(s.subrange(j, s.len() as int), q);
            if j > 0 {
                assert(s1.subrange(j - 1, s1.len() as int) =~= s.subrange(j, s.len() as int));
                assert(wildcard(s1.subrange(j - 1, s1.len() as int), q));
            }
        }
    }
}

/// A non-empty text whose first byte the pattern's first byte neither accepts nor skips as
/// `*` does not match.
proof fn lemma_wildcard_mismatch(s: Seq<u8>, q: Seq<u8>)
    requires
        s.len() > 0,
        q.len() == 0 || (!accepts(q[0], s[0]) && q[0] != 42u8),
    ensures
        !wildcard(s, q),
{
}

proof fn lemma_glob_run_wildcard(t: Seq<u8>, p: Seq<u8>, ti: int, pi: int, sp: int, st: int)
    requires
        run_inv(t, p, ti, pi, sp, st),
    ensures
        glob_run(t, p, ti, pi, sp, st) == wildcard(t, p),
    decreases t.len() - st, t.len() - ti, p.len() - pi,
{
    let n = t.len() as int;
    let m = p.len() as int;
    let tt = t.subrange(ti, n);
    let pp = p.subrange(pi, m);
    if ti == n {
        assert(tt =~= Seq::<u8>::empty());
        lemma_wildcard_empty(pp);
        assert((forall|k: int| pi <= k < m ==> p[k] == 42u8) == (forall|k: int|
            0 <= k < pp.len() ==> pp[k] == 42u8)) by {
            if forall|k: int| pi <= k < m ==> p[k] == 42u8 {
                assert forall|k: int| 0 <= k < pp.len() implies pp[k] == 42u8 by {
                    assert(p[pi + k] == 42u8);
                }
            }
            if forall|k: int| 0 <= k < pp.len() ==> pp[k] == 42u8 {
                assert forall|k: int| pi <= k < m implies p[k] == 42u8 by {
                    assert(pp[k - pi] == 42u8);
                }
            }
        }
        if sp >= 0 {
            let lit = p.subrange(sp + 1, pi);
            assert(p.subrange(sp + 1, m) =~= lit + pp);
            assert forall|j: int| st <= j <= n implies #[trigger] wildcard(
                t.subrange(j, n),
                p.subrange(sp + 1, m),
            ) == (j == st && wildcard(tt, pp)) by {
                let s = t.subrange(j, n);
                lemma_literal_split(s, lit, pp);
                if j == st {
                    assert(s.subrange(0, lit.len() as int) =~= t.subrange(st, ti));
                    assert(s.subrange(lit.len() as int, s.len() as int) =~= tt);
                }
            }
            if wildcard(t, p) {
                let j = choose|j: int| st <= j <= n && #[trigger] wildcard(t.subrange(j, n), p.subrange(sp + 1, m));
                assert(j == st);
            } else {
                if wildcard(tt, pp) {
                    assert(wildcard(t.subrange(st, n), p.subrange(sp + 1, m)));
                }
            }
        }
    } else {
        assert(tt[0] == t[ti]);
        assert(tt.drop_first() =~= t.subrange(ti + 1, n));
        if pi < m {
            assert(pp[0] == p[pi]);
            assert(pp.drop_first() =~= p.subrange(pi + 1, m));
        }
        if pi < m && p[pi] == 42u8 {
            let q = p.subrange(pi + 1, m);
            assert(pp =~= seq![42u8] + q);
            assert forall|j: int| ti <= j <= n implies #[trigger] wildcard(t.subrange(j, n), q)
                == wildcard(tt.subrange(j - ti, tt.len() as int), q) by {
                assert(t.subrange(j, n) =~= tt.subrange(j - ti, tt.len() as int));
            }
            lemma_wildcard_star(tt, q);
            assert(wildcard(tt, pp) == (exists|j: int| ti <= j <= n && #[trigger] wildcard(t.subrange(j, n), q))) by {
                if wildcard(tt, pp) {
                    let k = choose|k: int| 0 <= k <= tt.len() && #[trigger] wildcard(tt.subrange(k, tt.len() as int), q);
                    assert(wildcard(t.subrange(k + ti, n), q));
                }
                if exists|j: int| ti <= j <= n && #[trigger] wildcard(t.subrange(j, n), q) {
                    let j = choose|j: int| ti <= j <= n && #[trigger] wildcard(t.subrange(j, n), q);
                    assert(wildcard(tt.subrange(j - ti, tt.len() as int), q));
                }
            }
            if sp >= 0 {
                let lit = p.subrange(sp + 1, pi);
                let l = lit.len() as int;
                assert(p.subrange(sp + 1, m) =~= lit + pp);
                assert forall|j: int| st <= j <= n implies #[trigger] wildcard(
                    t.subrange(j, n),
                    p.subrange(sp + 1, m),
                ) == (n - j >= l && literal_prefix(t.subrange(j, j + l), lit) && wildcard(
                    t.subrange(j + l, n),
                    pp,
                )) by {
                    let s = t.subrange(j, n);
                    lemma_literal_split(s, lit, pp);
                    if n - j >= l {
                        assert(s.subrange(0, l) =~= t.subrange(j, j + l));
                        assert(s.subrange(l, s.len() as int) =~= t.subrange(j + l, n));
                    }
                }
                assert forall|j: int| ti <= j <= n implies #[trigger] wildcard(t.subrange(j, n), pp)
                    == (exists|k: int| j <= k <= n && #[trigger] wildcard(t.subrange(k, n), q)) by {
                    let s = t.subrange(j, n);
                    assert(s =~= tt.subrange(j - ti, tt.len() as int));
                    lemma_wildcard_star(s, q);
                    if wildcard(s, seq![42u8] + q) {
                        let k = choose|k: int| 0 <= k <= s.len() && #[trigger] wildcard(s.subrange(k, s.len() as int), q);
                        assert(s.subrange(k, s.len() as int) =~= t.subrange(j + k, n));
                        assert(wildcard(t.subrange(j + k, n), q));
                    }
                    if exists|k: int| j <= k <= n && #[trigger] wildcard(t.subrange(k, n), q) {
                        let k = choose|k: int| j <= k <= n && #[trigger] wildcard(t.subrange(k, n), q);
                        assert(s.subrange(k - j, s.len() as int) =~= t.subrange(k, n));
                        assert(wildcard(s.subrange(k - j, s.len() as int), q));
                    }
                }
                if wildcard(t, p) {
                    let j = choose|j: int| st <= j <= n && #[trigger] wildcard(t.subrange(j, n), p.subrange(sp + 1, m));
                    assert(wildcard(t.subrange(j + l, n), pp));
                    let k = choose|k: int| j + l <= k <= n && #[trigger] wildcard(t.subrange(k, n), q);
                    assert(ti <= k);
                }
                if exists|j: int| ti <= j <= n && #[trigger] wildcard(t.subrange(j, n), q) {
                    let k = choose|k: int| ti <= k <= n && #[trigger] wildcard(t.subrange(k, n), q);
                    assert(t.subrange(st, st + l) =~= t.subrange(st, ti));
                    assert(wildcard(t.subrange(ti, n), pp));
                    assert(wildcard(t.subrange(st, n), p.subrange(sp + 1, m)));
                }
            }
            assert(p.subrange(pi + 1, pi + 1) =~= Seq::<u8>::empty());
            assert(t.subrange(ti, ti) =~= Seq::<u8>::empty());
            assert(run_inv(t, p, ti, pi + 1, pi, ti));
            lemma_glob_run_wildcard(t, p, ti, pi + 1, pi, ti);
        } else if pi < m && accepts(p[pi], t[ti]) {
            assert(p[pi] != 42u8);
            if sp >= 0 {
                let a = t.subrange(st, ti + 1);
                let b = p.subrange(sp + 1, pi + 1);
                assert(literal_prefix(a, b)) by {
                    assert forall|k: int| 0 <= k < b.len() implies #[trigger] accepts(
                        b[k],
                        a[k],
                    ) by {
                        if k < b.len() - 1 {
                            assert(p.subrange(sp + 1, pi)[k] == b[k]);
                            assert(t.subrange(st, ti)[k] == a[k]);
                            assert(accepts(p.subrange(sp + 1, pi)[k], t.subrange(st, ti)[k]));
                        }
                    }
                }
                assert(star_free(b)) by {
                    assert forall|k: int| 0 <= k < b.len() implies b[k] != 42u8 by {
                        if k < b.len() - 1 {
                            assert(p.subrange(sp + 1, pi)[k] == b[k]);
                        }
                    }
                }
            }
            assert(run_inv(t, p, ti + 1, pi + 1, sp, st));
            lemma_glob_run_wildcard(t, p, ti + 1, pi + 1, sp, st);
        } else {
            lemma_wildcard_mismatch(tt, pp);
            if sp >= 0 {
                let lit = p.subrange(sp + 1, pi);
                assert(p.subrange(sp + 1, m) =~= lit + pp);
                let s = t.subrange(st, n);
                lemma_literal_split(s, lit, pp);
                assert(s.subrange(0, lit.len() as int) =~= t.subrange(st, ti));
                assert(s.subrange(lit.len() as int, s.len() as int) =~= tt);
                assert(!wildcard(t.subrange(st, n), p.subrange(sp + 1, m)));
                if wildcard(t, p) {
                    let j = choose|j: int| st <= j <= n && #[trigger] wildcard(t.subrange(j, n), p.subrange(sp + 1, m));
                    assert(j != st);
                }
                assert(p.subrange(sp + 1, sp + 1) =~= Seq::<u8>::empty());
                assert(t.subrange(st + 1, st + 1) =~= Seq::<u8>::empty());
                assert(run_inv(t, p, st + 1, sp + 1, sp, st + 1));
                lemma_glob_run_wildcard(t, p, st + 1, sp + 1, sp, st + 1);
            }
        }
    }
}

} // verus!
