//! Directory renames inferred from file renames, and the remapping of paths through them,
//! for `cherry-pick`'s three-way merge. Paths are byte strings with `/` (byte 47) between
//! their components.
use vstd::prelude::*;
use vstd::multiset::Multiset;
use crate::message::has_lead;

verus! {

pub open spec fn byte_views(v: Seq<Vec<u8>>) -> Seq<Seq<u8>> {
    v.map_values(|b: Vec<u8>| b@)
}

/// The pairs of byte strings of a list of pairs of byte vectors.
pub open spec fn pair_views(v: Seq<(Vec<u8>, Vec<u8>)>) -> Seq<(Seq<u8>, Seq<u8>)> {
    v.map_values(|p: (Vec<u8>, Vec<u8>)| (p.0@, p.1@))
}

/// Index of the last `/` in `p`, or `-1`.
pub open spec fn last_slash(p: Seq<u8>) -> int
    decreases p.len(),
{
    if p.len() == 0 {
        -1
    } else if p.last() == 47u8 {
        p.len() - 1
    } else {
        last_slash(p.drop_last())
    }
}

/// The directory part of a path: what comes before its last `/`, or nothing.
pub open spec fn parent_of(p: Seq<u8>) -> Seq<u8> {
    if last_slash(p) < 0 {
        Seq::empty()
    } else {
        p.take(last_slash(p))
    }
}

pub proof fn lemma_last_slash(p: Seq<u8>)
    ensures
        -1 <= last_slash(p) < p.len(),
        last_slash(p) >= 0 ==> p[last_slash(p)] == 47u8,
        forall|j: int| last_slash(p) < j < p.len() ==> p[j] != 47u8,
    decreases p.len(),
{
    if p.len() > 0 && p.last() != 47u8 {
        lemma_last_slash(p.drop_last());
        assert forall|j: int| last_slash(p) < j < p.len() implies p[j] != 47u8 by {
            if j < p.len() - 1 {
                assert(p.drop_last()[j] == p[j]);
            }
        }
    }
}

/// The directory part of a path.
pub fn parent_dir(path: &[u8]) -> (r: Vec<u8>)
    ensures
        r@ == parent_of(path@),
{
    let mut k = path.len();
    assert(path@.take(path@.len() as int) =~= path@);
    while k > 0 && path[k - 1] != 47u8
        invariant
            k <= path@.len(),
            last_slash(path@.take(k as int)) == last_slash(path@),
        decreases k,
    {
        assert(path@.take(k as int).drop_last() =~= path@.take(k - 1));
        k = k - 1;
    }
    let mut r: Vec<u8> = Vec::new();
    if k > 0 {
        let mut i: usize = 0;
        while i < k - 1
            invariant
                0 < k <= path@.len(),
                i <= k - 1,
                r@ == path@.take(i as int),
            decreases k - 1 - i,
        {
            r.push(path[i]);
            i = i + 1;
            assert(r@ =~= path@.take(i as int));
        }
    }
    r
}

fn bytes_eq(a: &Vec<u8>, b: &Vec<u8>) -> (r: bool)
    ensures
        r == (a@ == b@),
{
    if a.len() != b.len() {
        return false;
    }
    let mut k: usize = 0;
    while k < a.len()
        invariant
            a@.len() == b@.len(),
            k <= a@.len(),
            forall|j: int| 0 <= j < k ==> a@[j] == b@[j],
        decreases a@.len() - k,
    {
        if a[k] != b[k] {
            return false;
        }
        k = k + 1;
    }
    assert(a@ =~= b@);
    true
}

/// `old` is the directory that holds `path` (the empty directory holds the paths without `/`).
pub open spec fn in_dir(path: Seq<u8>, old: Seq<u8>) -> bool {
    if old.len() == 0 {
        !path.contains(47u8)
    } else {
        path.len() > old.len() && has_lead(path, old) && path[old.len() as int] == 47u8
    }
}

/// No key occurs twice.
pub open spec fn distinct_keys(m: Seq<(Seq<u8>, Seq<u8>)>) -> bool {
    forall|i: int, j: int| 0 <= i < j < m.len() ==> (#[trigger] m[i]).0 != (#[trigger] m[j]).0
}

/// Entry `k` renames the deepest directory of `path` among the entries that rename one.
pub open spec fn deepest_rename(path: Seq<u8>, m: Seq<(Seq<u8>, Seq<u8>)>, k: int) -> bool {
    &&& 0 <= k < m.len()
    &&& in_dir(path, m[k].0)
    &&& forall|j: int| 0 <= j < m.len() && in_dir(path, #[trigger] m[j].0) ==> m[j].0.len() <= m[k].0.len()
}

/// `path` moved from directory `old` to directory `new`: `new`, a `/` when both `new` and the
/// rest are not empty, and the rest of the path.
pub open spec fn moved(path: Seq<u8>, old: Seq<u8>, new: Seq<u8>) -> Seq<u8> {
    let suffix = if old.len() == 0 {
        path
    } else {
        path.subrange(old.len() as int + 1, path.len() as int)
    };
    new + (if new.len() > 0 && suffix.len() > 0 {
        seq![47u8]
    } else {
        Seq::empty()
    }) + suffix
}

/// Two entries that both rename a directory holding `path`, with keys of the same length, are
/// the same entry (when keys are distinct).
pub proof fn lemma_deepest_unique(path: Seq<u8>, m: Seq<(Seq<u8>, Seq<u8>)>, i: int, j: int)
    requires
        distinct_keys(m),
        0 <= i < m.len(),
        0 <= j < m.len(),
        in_dir(path, m[i].0),
        in_dir(path, m[j].0),
        m[i].0.len() == m[j].0.len(),
    ensures
        i == j,
{
    if i != j {
        if m[i].0.len() > 0 {
            assert(m[i].0 =~= m[j].0) by {
                assert forall|q: int| 0 <= q < m[i].0.len() implies m[i].0[q] == m[j].0[q] by {
                    assert(path.take(m[i].0.len() as int)[q] == m[i].0[q]);
                    assert(path.take(m[j].0.len() as int)[q] == m[j].0[q]);
                }
            }
        } else {
            assert(m[i].0 =~= m[j].0);
        }
        if i < j {
            assert(m[i].0 != m[j].0);
        } else {
            assert(m[j].0 != m[i].0);
        }
    }
}

/// Moves `path` along the rename of its deepest renamed directory, if any. `dir_renames` maps
/// old directories to new ones, each old directory once.
pub fn remap_path_by_directory_renames(path: &[u8], dir_renames: &Vec<(Vec<u8>, Vec<u8>)>) -> (r: Option<Vec<u8>>)
    requires
        distinct_keys(pair_views(dir_renames@)),
    ensures
        match r {
            Some(v) => exists|k: int| #[trigger] deepest_rename(path@, pair_views(dir_renames@), k)
                && v@ == moved(path@, pair_views(dir_renames@)[k].0, pair_views(dir_renames@)[k].1),
            None => forall|k: int| 0 <= k < dir_renames@.len() ==> !in_dir(path@, #[trigger] pair_views(dir_renames@)[k].0),
        },
{
    let ghost m = pair_views(dir_renames@);
    let mut has_slash = false;
    let mut q: usize = 0;
    while q < path.len()
        invariant
            q <= path@.len(),
            has_slash == exists|j: int| 0 <= j < q && path@[j] == 47u8,
        decreases path@.len() - q,
    {
        if path[q] == 47u8 {
            has_slash = true;
        }
        q = q + 1;
    }
    assert(has_slash == path@.contains(47u8));
    let mut best: Option<usize> = None;
    let mut i: usize = 0;
    while i < dir_renames.len()
        invariant
            m == pair_views(dir_renames@),
            has_slash == path@.contains(47u8),
            i <= dir_renames@.len(),
            match best {
                Some(b) => b < i && in_dir(path@, m[b as int].0) && forall|j: int|
                    0 <= j < i && in_dir(path@, #[trigger] m[j].0) ==> m[j].0.len() <= m[b as int].0.len(),
                None => forall|j: int| 0 <= j < i ==> !in_dir(path@, #[trigger] m[j].0),
            },
        decreases dir_renames@.len() - i,
    {
        let old = &dir_renames[i].0;
        assert(old@ == m[i as int].0);
        let matches = if old.len() == 0 {
            !has_slash
        } else {
            path.len() > old.len() && crate::commit::bytes_have_lead_pub(path, old.as_slice()) && path[old.len()] == 47u8
        };
        assert(matches == in_dir(path@, m[i as int].0));
        if matches {
            match best {
                None => {
                    best = Some(i);
                },
                Some(b) => {
                    if old.len() > dir_renames[b].0.len() {
                        best = Some(i);
                    }
                },
            }
        }
        i = i + 1;
    }
    match best {
        None => None,
        Some(b) => {
            let old = &dir_renames[b].0;
            let new = &dir_renames[b].1;
            assert(deepest_rename(path@, m, b as int));
            let mut out: Vec<u8> = Vec::new();
            let mut k: usize = 0;
            while k < new.len()
                invariant
                    k <= new@.len(),
                    out@ == new@.take(k as int),
                decreases new@.len() - k,
            {
                out.push(new[k]);
                k = k + 1;
                assert(out@ =~= new@.take(k as int));
            }
            assert(new@.take(new@.len() as int) =~= new@);
            let start = if old.len() == 0 {
                0
            } else {
                old.len() + 1
            };
            let n = path.len();
            if new.len() > 0 && start < n {
                out.push(47u8);
            }
            let ghost mid = out@;
            let mut j = start;
            while j < n
                invariant
                    start <= j <= n == path@.len(),
                    out@ == mid + path@.subrange(start as int, j as int),
                decreases n - j,
            {
                out.push(path[j]);
                j = j + 1;
                assert(out@ =~= mid + path@.subrange(start as int, j as int));
            }
            assert(start == 0 ==> path@.subrange(0, n as int) =~= path@);
            assert(out@ =~= moved(path@, m[b as int].0, m[b as int].1));
            Some(out)
        },
    }
}

// ----- directory renames from file renames ---------------------------------------------

/// The (old directory, new directory) pair of each file rename that changes directory, in
/// order.
pub open spec fn dir_moves(renames: Seq<(Seq<u8>, Seq<u8>)>) -> Seq<(Seq<u8>, Seq<u8>)>
    decreases renames.len(),
{
    if renames.len() == 0 {
        Seq::empty()
    } else {
        let rest = dir_moves(renames.drop_last());
        let a = parent_of(renames.last().0);
        let b = parent_of(renames.last().1);
        if a == b {
            rest
        } else {
            rest.push((a, b))
        }
    }
}

/// How many of the moves go from directory `o` to directory `n`.
pub open spec fn move_count(ps: Seq<(Seq<u8>, Seq<u8>)>, o: Seq<u8>, n: Seq<u8>) -> nat
    decreases ps.len(),
{
    if ps.len() == 0 {
        0
    } else {
        move_count(ps.drop_last(), o, n) + if ps.last() == (o, n) {
            1nat
        } else {
            0nat
        }
    }
}

/// `n` is where files of directory `o` moved to strictly more often than anywhere else.
pub open spec fn favorite_target(ps: Seq<(Seq<u8>, Seq<u8>)>, o: Seq<u8>, n: Seq<u8>) -> bool {
    move_count(ps, o, n) > 0 && forall|m: Seq<u8>| m != n ==> #[trigger] move_count(ps, o, m) < move_count(ps, o, n)
}

pub proof fn lemma_count_pos(ps: Seq<(Seq<u8>, Seq<u8>)>, o: Seq<u8>, n: Seq<u8>, j: int)
    requires
        0 <= j < ps.len(),
        ps[j] == (o, n),
    ensures
        move_count(ps, o, n) > 0,
    decreases ps.len(),
{
    if j < ps.len() - 1 {
        lemma_count_pos(ps.drop_last(), o, n, j);
    }
}

pub proof fn lemma_count_occurs(ps: Seq<(Seq<u8>, Seq<u8>)>, o: Seq<u8>, n: Seq<u8>)
    requires
        move_count(ps, o, n) > 0,
    ensures
        exists|j: int| 0 <= j < ps.len() && #[trigger] ps[j] == (o, n),
    decreases ps.len(),
{
    if ps.last() != (o, n) {
        lemma_count_occurs(ps.drop_last(), o, n);
        let j = choose|j: int| 0 <= j < ps.drop_last().len() && #[trigger] ps.drop_last()[j] == (o, n);
        assert(ps[j] == ps.drop_last()[j]);
    } else {
        assert(ps[ps.len() - 1] == (o, n));
    }
}

fn pair_eq(p: &(Vec<u8>, Vec<u8>), o: &Vec<u8>, n: &Vec<u8>) -> (r: bool)
    ensures
        r == ((p.0@, p.1@) == (o@, n@)),
{
    bytes_eq(&p.0, o) && bytes_eq(&p.1, n)
}

/// The number of moves from `o` to `n`.
fn count_moves(ps: &Vec<(Vec<u8>, Vec<u8>)>, o: &Vec<u8>, n: &Vec<u8>) -> (c: usize)
    ensures
        c == move_count(pair_views(ps@), o@, n@),
{
    let ghost pv = pair_views(ps@);
    let mut c: usize = 0;
    let mut k: usize = 0;
    while k < ps.len()
        invariant
            pv == pair_views(ps@),
            k <= ps@.len(),
            c <= k,
            c == move_count(pv.take(k as int), o@, n@),
        decreases ps@.len() - k,
    {
        assert(pv.take(k + 1).drop_last() =~= pv.take(k as int));
        assert(pv.take(k + 1).last() == pv[k as int]);
        assert(pv[k as int] == (ps@[k as int].0@, ps@[k as int].1@));
        if pair_eq(&ps[k], o, n) {
            c = c + 1;
        }
        k = k + 1;
    }
    assert(pv.take(ps@.len() as int) =~= pv);
    c
}

fn copy_bytes(v: &Vec<u8>) -> (r: Vec<u8>)
    ensures
        r@ == v@,
{
    let mut r: Vec<u8> = Vec::new();
    let mut k: usize = 0;
    while k < v.len()
        invariant
            k <= v@.len(),
            r@ == v@.take(k as int),
        decreases v@.len() - k,
    {
        r.push(v[k]);
        k = k + 1;
        assert(r@ =~= v@.take(k as int));
    }
    assert(v@.take(v@.len() as int) =~= v@);
    r
}

/// The moves of `renames`, as byte vectors.
fn collect_dir_moves(renames: &[(Vec<u8>, Vec<u8>)]) -> (r: Vec<(Vec<u8>, Vec<u8>)>)
    ensures
        pair_views(r@) == dir_moves(pair_views(renames@)),
{
    let ghost rv = pair_views(renames@);
    let mut out: Vec<(Vec<u8>, Vec<u8>)> = Vec::new();
    let mut i: usize = 0;
    while i < renames.len()
        invariant
            rv == pair_views(renames@),
            i <= renames@.len(),
            pair_views(out@) == dir_moves(rv.take(i as int)),
        decreases renames@.len() - i,
    {
        let a = parent_dir(renames[i].0.as_slice());
        let b = parent_dir(renames[i].1.as_slice());
        assert(rv.take(i + 1).drop_last() =~= rv.take(i as int));
        assert(rv.take(i + 1).last() == rv[i as int]);
        if !bytes_eq(&a, &b) {
            let ghost before = out@;
            out.push((a, b));
            assert(pair_views(out@) =~= pair_views(before).push((a@, b@)));
        }
        i = i + 1;
    }
    assert(rv.take(renames@.len() as int) =~= rv);
    out
}

/// The renames that move a file from directory `o` to another directory `n`.
pub open spec fn moves_between(o: Seq<u8>, n: Seq<u8>) -> spec_fn((Seq<u8>, Seq<u8>)) -> bool {
    |x: (Seq<u8>, Seq<u8>)| o != n && parent_of(x.0) == o && parent_of(x.1) == n
}

/// The number of moves from `o` to `n` is the number of renames, counted as a multiset, that
/// move a file from `o` to `n`.
proof fn lemma_move_count_multiset(r: Seq<(Seq<u8>, Seq<u8>)>, o: Seq<u8>, n: Seq<u8>)
    ensures
        move_count(dir_moves(r), o, n) == r.to_multiset().filter(moves_between(o, n)).len(),
    decreases r.len(),
{
    broadcast use vstd::multiset::group_multiset_axioms;
    broadcast use vstd::seq_lib::to_multiset_build;
    let f = moves_between(o, n);
    if r.len() == 0 {
        r.to_multiset_ensures();
        vstd::multiset::lemma_multiset_empty_len(r.to_multiset());
        assert(r.to_multiset() =~= Multiset::empty());
        assert(r.to_multiset().filter(f) =~= Multiset::empty());
    } else {
        let x = r.last();
        let r0 = r.drop_last();
        lemma_move_count_multiset(r0, o, n);
        assert(r =~= r0.push(x));
        let m0 = r0.to_multiset();
        assert(r.to_multiset() =~= m0.insert(x));
        let dm = dir_moves(r0);
        let a = parent_of(x.0);
        let b = parent_of(x.1);
        if f(x) {
            assert(m0.insert(x).filter(f) =~= m0.filter(f).insert(x));
            vstd::multiset::lemma_insert_len(m0.filter(f), x);
            assert(dir_moves(r) == dm.push((a, b)));
            assert(dm.push((a, b)).drop_last() =~= dm);
        } else {
            assert(m0.insert(x).filter(f) =~= m0.filter(f));
            if a == b {
                assert(dir_moves(r) == dm);
            } else {
                assert(dir_moves(r) == dm.push((a, b)));
                assert(dm.push((a, b)).drop_last() =~= dm);
                assert((a, b) != (o, n));
            }
        }
    }
}

/// The directory renames do not depend on the order of the file renames: the same renames in
/// any order give every directory the same favorite target, or none.
pub proof fn law_directory_renames_order_free(r1: Seq<(Seq<u8>, Seq<u8>)>, r2: Seq<(Seq<u8>, Seq<u8>)>)
    requires
        r1.to_multiset() == r2.to_multiset(),
    ensures
        forall|o: Seq<u8>, n: Seq<u8>|
            #[trigger] favorite_target(dir_moves(r1), o, n) == favorite_target(dir_moves(r2), o, n),
{
    let d1 = dir_moves(r1);
    let d2 = dir_moves(r2);
    assert forall|o: Seq<u8>, n: Seq<u8>| #[trigger] move_count(d1, o, n) == move_count(d2, o, n) by {
        lemma_move_count_multiset(r1, o, n);
        lemma_move_count_multiset(r2, o, n);
    }
    assert forall|o: Seq<u8>, n: Seq<u8>| #[trigger] favorite_target(d1, o, n) == favorite_target(d2, o, n) by {
        if favorite_target(d1, o, n) {
            assert forall|m: Seq<u8>| m != n implies #[trigger] move_count(d2, o, m) < move_count(d2, o, n) by {
                assert(move_count(d1, o, m) < move_count(d1, o, n));
            }
        }
        if favorite_target(d2, o, n) {
            assert forall|m: Seq<u8>| m != n implies #[trigger] move_count(d1, o, m) < move_count(d1, o, n) by {
                assert(move_count(d2, o, m) < move_count(d2, o, n));
            }
        }
    }
}

/// `ps[i]` is the first move out of its directory.
pub open spec fn first_of_dir(ps: Seq<(Seq<u8>, Seq<u8>)>, i: int) -> bool {
    forall|j: int| 0 <= j < i ==> (#[trigger] ps[j]).0 != ps[i].0
}

/// The favorite target of directory `o`, if it has one.
fn favorite_of(ps: &Vec<(Vec<u8>, Vec<u8>)>, o: &Vec<u8>) -> (r: Option<usize>)
    ensures
        match r {
            Some(b) => b < ps@.len() && pair_views(ps@)[b as int].0 == o@ && favorite_target(
                pair_views(ps@),
                o@,
                pair_views(ps@)[b as int].1,
            ),
            None => forall|n: Seq<u8>| !favorite_target(pair_views(ps@), o@, n),
        },
{
    let ghost pv = pair_views(ps@);
    let mut best: Option<usize> = None;
    let mut best_c: usize = 0;
    let mut tied = false;
    let mut j: usize = 0;
    while j < ps.len()
        invariant
            pv == pair_views(ps@),
            j <= ps@.len(),
            match best {
                Some(b) => {
                    &&& b < j
                    &&& pv[b as int].0 == o@
                    &&& best_c == move_count(pv, o@, pv[b as int].1)
                    &&& forall|q: int| 0 <= q < j && (#[trigger] pv[q]).0 == o@ ==> move_count(pv, o@, pv[q].1) <= best_c
                    &&& tied == exists|q: int|
                        0 <= q < j && (#[trigger] pv[q]).0 == o@ && pv[q].1 != pv[b as int].1 && move_count(pv, o@, pv[q].1)
                            == best_c
                },
                None => forall|q: int| 0 <= q < j ==> (#[trigger] pv[q]).0 != o@,
            },
        decreases ps@.len() - j,
    {
        assert(pv[j as int] == (ps@[j as int].0@, ps@[j as int].1@));
        if bytes_eq(&ps[j].0, o) {
            let n = &ps[j].1;
            let c = count_moves(ps, o, n);
            match best {
                None => {
                    best = Some(j);
                    best_c = c;
                    tied = false;
                },
                Some(b) => {
                    if !bytes_eq(n, &ps[b].1) {
                        assert(pv[b as int] == (ps@[b as int].0@, ps@[b as int].1@));
                        if c > best_c {
                            best = Some(j);
                            best_c = c;
                            tied = false;
                            proof {
                                assert forall|q: int| 0 <= q < j + 1 && (#[trigger] pv[q]).0 == o@ implies !(pv[q].1
                                    != pv[j as int].1 && move_count(pv, o@, pv[q].1) == best_c) by {}
                            }
                        } else if c == best_c {
                            tied = true;
                        }
                    }
                },
            }
        }
        j = j + 1;
    }
    match best {
        None => {
            proof {
                assert forall|n: Seq<u8>| !favorite_target(pv, o@, n) by {
                    if move_count(pv, o@, n) > 0 {
                        lemma_count_occurs(pv, o@, n);
                        let q = choose|q: int| 0 <= q < pv.len() && #[trigger] pv[q] == (o@, n);
                        assert(pv[q].0 == o@);
                    }
                }
            }
            None
        },
        Some(b) => {
            let ghost bn = pv[b as int].1;
            proof {
                lemma_count_pos(pv, o@, bn, b as int);
            }
            if tied {
                proof {
                    let q = choose|q: int|
                        0 <= q < pv.len() && (#[trigger] pv[q]).0 == o@ && pv[q].1 != bn && move_count(pv, o@, pv[q].1)
                            == best_c;
                    assert forall|n: Seq<u8>| !favorite_target(pv, o@, n) by {
                        if n == bn {
                            assert(move_count(pv, o@, pv[q].1) == move_count(pv, o@, bn));
                        } else if move_count(pv, o@, n) > 0 {
                            lemma_count_occurs(pv, o@, n);
                            let q2 = choose|q2: int| 0 <= q2 < pv.len() && #[trigger] pv[q2] == (o@, n);
                            assert(pv[q2].0 == o@);
                            assert(move_count(pv, o@, bn) == best_c);
                        }
                    }
                }
                None
            } else {
                proof {
                    assert forall|m: Seq<u8>| m != bn implies #[trigger] move_count(pv, o@, m) < move_count(pv, o@, bn) by {
                        if move_count(pv, o@, m) > 0 {
                            lemma_count_occurs(pv, o@, m);
                            let q = choose|q: int| 0 <= q < pv.len() && #[trigger] pv[q] == (o@, m);
                            assert(pv[q].0 == o@);
                        }
                    }
                }
                Some(b)
            }
        },
    }
}

/// Infers directory renames from file renames: a directory is renamed to the directory that
/// strictly the most of its renamed files moved to (renames within one directory do not
/// count, and a tie for the most gives no rename). Each old directory appears once.
pub fn directory_renames_from_file_renames(renames: &[(Vec<u8>, Vec<u8>)]) -> (r: Vec<(Vec<u8>, Vec<u8>)>)
    ensures
        distinct_keys(pair_views(r@)),
        forall|i: int|
            0 <= i < r@.len() ==> favorite_target(
                dir_moves(pair_views(renames@)),
                #[trigger] pair_views(r@)[i].0,
                pair_views(r@)[i].1,
            ),
        forall|o: Seq<u8>, n: Seq<u8>|
            #[trigger] favorite_target(dir_moves(pair_views(renames@)), o, n) ==> exists|i: int|
                0 <= i < r@.len() && #[trigger] pair_views(r@)[i] == (o, n),
{
    let ps = collect_dir_moves(renames);
    let ghost pv = pair_views(ps@);
    let mut out: Vec<(Vec<u8>, Vec<u8>)> = Vec::new();
    let mut i: usize = 0;
    while i < ps.len()
        invariant
            pv == pair_views(ps@),
            pv == dir_moves(pair_views(renames@)),
            i <= ps@.len(),
            distinct_keys(pair_views(out@)),
            forall|k: int|
                0 <= k < out@.len() ==> favorite_target(pv, #[trigger] pair_views(out@)[k].0, pair_views(out@)[k].1)
                    && exists|q: int| 0 <= q < i && (#[trigger] pv[q]).0 == pair_views(out@)[k].0,
            forall|q: int, n: Seq<u8>|
                0 <= q < i && first_of_dir(pv, q) && #[trigger] favorite_target(pv, (#[trigger] pv[q]).0, n) ==> exists|k: int|
                    0 <= k < out@.len() && #[trigger] pair_views(out@)[k] == (pv[q].0, n),
        decreases ps@.len() - i,
    {
        let o = &ps[i].0;
        assert(pv[i as int].0 == o@);
        let mut seen = false;
        let mut q: usize = 0;
        while q < i
            invariant
                pv == pair_views(ps@),
                i < ps@.len(),
                q <= i,
                pv[i as int].0 == o@,
                seen == exists|w: int| 0 <= w < q && (#[trigger] pv[w]).0 == o@,
            decreases i - q,
        {
            assert(pv[q as int] == (ps@[q as int].0@, ps@[q as int].1@));
            if bytes_eq(&ps[q].0, o) {
                seen = true;
            }
            q = q + 1;
        }
        if !seen {
            assert(first_of_dir(pv, i as int));
            match favorite_of(&ps, o) {
                Some(b) => {
                    let ghost before = out@;
                    let key = copy_bytes(o);
                    let val = copy_bytes(&ps[b].1);
                    assert(pv[b as int] == (ps@[b as int].0@, ps@[b as int].1@));
                    out.push((key, val));
                    proof {
                        assert(pair_views(out@) =~= pair_views(before).push((o@, pv[b as int].1)));
                        assert forall|k: int| 0 <= k < pair_views(before).len() implies (#[trigger] pair_views(
                            before,
                        )[k]).0 != o@ by {
                            let w = choose|w: int| 0 <= w < i && (#[trigger] pv[w]).0 == pair_views(before)[k].0;
                        }
                        assert forall|q2: int, n: Seq<u8>|
                            0 <= q2 < i + 1 && first_of_dir(pv, q2) && #[trigger] favorite_target(
                                pv,
                                (#[trigger] pv[q2]).0,
                                n,
                            ) implies exists|k: int|
                            0 <= k < out@.len() && #[trigger] pair_views(out@)[k] == (pv[q2].0, n) by {
                            if q2 == i {
                                if n != pv[b as int].1 {
                                    assert(move_count(pv, o@, pv[b as int].1) < move_count(pv, o@, n));
                                }
                                assert(pair_views(out@)[before.len() as int] == (pv[q2].0, n));
                            } else {
                                let k = choose|k: int|
                                    0 <= k < before.len() && #[trigger] pair_views(before)[k] == (pv[q2].0, n);
                                assert(pair_views(out@)[k] == pair_views(before)[k]);
                            }
                        }
                        assert forall|k: int| 0 <= k < out@.len() implies favorite_target(
                            pv,
                            #[trigger] pair_views(out@)[k].0,
                            pair_views(out@)[k].1,
                        ) && exists|q2: int| 0 <= q2 < i + 1 && (#[trigger] pv[q2]).0 == pair_views(out@)[k].0 by {
                            if k < before.len() {
                                assert(pair_views(out@)[k] == pair_views(before)[k]);
                                let w = choose|w: int| 0 <= w < i && (#[trigger] pv[w]).0 == pair_views(before)[k].0;
                            } else {
                                assert(pv[i as int].0 == pair_views(out@)[k].0);
                            }
                        }
                    }
                },
                None => {
                    proof {
                        assert forall|q2: int, n: Seq<u8>|
                            0 <= q2 < i + 1 && first_of_dir(pv, q2) && #[trigger] favorite_target(
                                pv,
                                (#[trigger] pv[q2]).0,
                                n,
                            ) implies exists|k: int|
                            0 <= k < out@.len() && #[trigger] pair_views(out@)[k] == (pv[q2].0, n) by {
                            if q2 == i {
                                assert(!favorite_target(pv, o@, n));
                            }
                        }
                    }
                },
            }
        } else {
            proof {
                let w = choose|w: int| 0 <= w < i && (#[trigger] pv[w]).0 == o@;
                assert(!first_of_dir(pv, i as int));
            }
        }
        i = i + 1;
    }
    proof {
        assert forall|o: Seq<u8>, n: Seq<u8>| #[trigger] favorite_target(pv, o, n) implies exists|k: int|
            0 <= k < out@.len() && #[trigger] pair_views(out@)[k] == (o, n) by {
            lemma_count_occurs(pv, o, n);
            let j = choose|j: int| 0 <= j < pv.len() && #[trigger] pv[j] == (o, n);
            let f = first_index_of_dir(pv, j);
            assert(pv[f].0 == o);
        }
    }
    out
}

/// The first move out of the directory of `ps[j]`.
proof fn first_index_of_dir(ps: Seq<(Seq<u8>, Seq<u8>)>, j: int) -> (f: int)
    requires
        0 <= j < ps.len(),
    ensures
        0 <= f <= j,
        ps[f].0 == ps[j].0,
        first_of_dir(ps, f),
    decreases j,
{
    if exists|w: int| 0 <= w < j && (#[trigger] ps[w]).0 == ps[j].0 {
        let w = choose|w: int| 0 <= w < j && (#[trigger] ps[w]).0 == ps[j].0;
        first_index_of_dir(ps, w)
    } else {
        j
    }
}

} // verus!
