//! Selecting and ordering rows: what a query picks out of a sequence.
use vstd::prelude::*;

verus! {

/// Whether position `i` is the first one that satisfies `p`.
pub open spec fn first_at<R>(s: Seq<R>, p: spec_fn(R) -> bool, i: int) -> bool {
    &&& 0 <= i < s.len()
    &&& p(s[i])
    &&& forall|j: int| 0 <= j < i ==> !p(#[trigger] s[j])
}

/// Whether some row satisfies `p`.
pub open spec fn any<R>(s: Seq<R>, p: spec_fn(R) -> bool) -> bool {
    exists|i: int| 0 <= i < s.len() && p(#[trigger] s[i])
}

/// Whether every row satisfies `p`.
pub open spec fn all<R>(s: Seq<R>, p: spec_fn(R) -> bool) -> bool {
    forall|i: int| 0 <= i < s.len() ==> p(#[trigger] s[i])
}

/// Whether every row and every later row stand in the relation `rel`.
pub open spec fn pairwise<R>(s: Seq<R>, rel: spec_fn(R, R) -> bool) -> bool {
    forall|i: int, j: int| 0 <= i < j < s.len() ==> rel(#[trigger] s[i], #[trigger] s[j])
}

/// The first row that satisfies `p`.
pub open spec fn first<R>(s: Seq<R>, p: spec_fn(R) -> bool) -> Option<R> {
    if any(s, p) {
        Some(s[choose|i: int| first_at(s, p, i)])
    } else {
        None
    }
}

/// How many rows satisfy `p`.
pub open spec fn count<R>(s: Seq<R>, p: spec_fn(R) -> bool) -> nat
    decreases s.len(),
{
    if s.len() == 0 {
        0
    } else {
        count(s.drop_last(), p) + if p(s.last()) {
            1nat
        } else {
            0nat
        }
    }
}

pub proof fn lemma_first_found<R>(s: Seq<R>, p: spec_fn(R) -> bool, i: int)
    requires
        first_at(s, p, i),
    ensures
        first(s, p) == Some(s[i]),
        any(s, p),
{
    let k = choose|k: int| first_at(s, p, k);
    assert(first_at(s, p, k));
    if k < i {
        assert(!p(s[k]));
    }
    if i < k {
        assert(!p(s[i]));
    }
}

proof fn lemma_first_exists<R>(s: Seq<R>, p: spec_fn(R) -> bool, i: int)
    requires
        0 <= i < s.len(),
        p(s[i]),
    ensures
        exists|k: int| first_at(s, p, k),
    decreases i,
{
    if forall|j: int| 0 <= j < i ==> !p(#[trigger] s[j]) {
        assert(first_at(s, p, i));
    } else {
        let j = choose|j: int| 0 <= j < i && p(#[trigger] s[j]);
        lemma_first_exists(s, p, j);
    }
}

/// What the first row is: it satisfies `p` and stands in the sequence.
pub proof fn lemma_first<R>(s: Seq<R>, p: spec_fn(R) -> bool)
    ensures
        match first(s, p) {
            Some(r) => exists|i: int| #[trigger] first_at(s, p, i) && s[i] == r,
            None => forall|i: int| 0 <= i < s.len() ==> !p(#[trigger] s[i]),
        },
{
    if any(s, p) {
        let i = choose|i: int| 0 <= i < s.len() && p(#[trigger] s[i]);
        lemma_first_exists(s, p, i);
    }
}

pub proof fn lemma_count_zero<R>(s: Seq<R>, p: spec_fn(R) -> bool)
    ensures
        count(s, p) == 0 <==> !any(s, p),
        count(s, p) <= s.len(),
    decreases s.len(),
{
    if s.len() > 0 {
        let t = s.drop_last();
        lemma_count_zero(t, p);
        if any(t, p) {
            let i = choose|i: int| 0 <= i < t.len() && p(#[trigger] t[i]);
            assert(s[i] == t[i]);
        }
        if any(s, p) {
            let i = choose|i: int| 0 <= i < s.len() && p(#[trigger] s[i]);
            if i < t.len() {
                assert(t[i] == s[i]);
            }
        }
        if p(s.last()) {
            assert(s[s.len() - 1] == s.last());
        }
    }
}

/// The rows that satisfy `p`, one after the other: each of them is a row that satisfies `p`, each
/// row that satisfies `p` is among them, and relations between earlier and later rows carry over.
pub proof fn lemma_filter<R>(s: Seq<R>, p: spec_fn(R) -> bool)
    ensures
        s.filter(p).len() <= s.len(),
        all(s.filter(p), p),
        forall|r: R| s.filter(p).contains(r) <==> (s.contains(r) && p(r)),
        forall|rel: spec_fn(R, R) -> bool|
            pairwise(s, rel) ==> #[trigger] pairwise(s.filter(p), rel),
        forall|q: spec_fn(R) -> bool| all(s, q) ==> #[trigger] all(s.filter(p), q),
        s.filter(p).len() == count(s, p),
    decreases s.len(),
{
    reveal(Seq::filter);
    if s.len() > 0 {
        let t = s.drop_last();
        lemma_filter(t, p);
        let f = s.filter(p);
        let g = t.filter(p);
        assert(f == if p(s.last()) {
            g.push(s.last())
        } else {
            g
        });
        assert forall|r: R| f.contains(r) <==> (s.contains(r) && p(r)) by {
            if f.contains(r) {
                let i = choose|i: int| 0 <= i < f.len() && f[i] == r;
                if i < g.len() {
                    assert(g[i] == r);
                    assert(g.contains(r));
                    assert(t.contains(r));
                    let k = choose|k: int| 0 <= k < t.len() && t[k] == r;
                    assert(s[k] == r);
                } else {
                    assert(s[s.len() - 1] == r);
                }
            }
            if s.contains(r) && p(r) {
                let k = choose|k: int| 0 <= k < s.len() && s[k] == r;
                if k < t.len() {
                    assert(t[k] == r);
                    assert(t.contains(r));
                    assert(g.contains(r));
                    let i = choose|i: int| 0 <= i < g.len() && g[i] == r;
                    assert(f[i] == r);
                } else {
                    assert(f[g.len() as int] == r);
                }
            }
        }
        assert forall|rel: spec_fn(R, R) -> bool| pairwise(s, rel) implies #[trigger] pairwise(
            f,
            rel,
        ) by {
            assert forall|i: int, j: int| 0 <= i < j < t.len() implies rel(
                #[trigger] t[i],
                #[trigger] t[j],
            ) by {
                assert(rel(s[i], s[j]));
            }
            assert(pairwise(t, rel));
            assert(pairwise(g, rel));
            assert forall|i: int, j: int| 0 <= i < j < f.len() implies rel(
                #[trigger] f[i],
                #[trigger] f[j],
            ) by {
                if j < g.len() {
                    assert(rel(g[i], g[j]));
                } else {
                    assert(g.contains(g[i]));
                    assert(t.contains(g[i]));
                    let k = choose|k: int| 0 <= k < t.len() && t[k] == g[i];
                    assert(rel(s[k], s[s.len() - 1]));
                }
            }
        }
        assert forall|q: spec_fn(R) -> bool| all(s, q) implies #[trigger] all(f, q) by {
            assert forall|i: int| 0 <= i < t.len() implies q(#[trigger] t[i]) by {
                assert(q(s[i]));
            }
            assert(all(t, q));
            assert(all(g, q));
            assert forall|i: int| 0 <= i < f.len() implies q(#[trigger] f[i]) by {
                if i < g.len() {
                    assert(q(g[i]));
                } else {
                    assert(q(s[s.len() - 1]));
                }
            }
        }
        assert forall|i: int| 0 <= i < f.len() implies p(#[trigger] f[i]) by {
            if i < g.len() {
                assert(p(g[i]));
            }
        }
    }
}

pub proof fn lemma_filter_step<R>(s: Seq<R>, p: spec_fn(R) -> bool, i: int)
    requires
        0 <= i < s.len(),
    ensures
        s.take(i + 1).filter(p) == if p(s[i]) {
            s.take(i).filter(p).push(s[i])
        } else {
            s.take(i).filter(p)
        },
{
    reveal(Seq::filter);
    assert(s.take(i + 1).drop_last() =~= s.take(i));
}

pub proof fn lemma_count_step<R>(s: Seq<R>, p: spec_fn(R) -> bool, i: int)
    requires
        0 <= i < s.len(),
    ensures
        count(s.take(i + 1), p) == count(s.take(i), p) + if p(s[i]) {
            1nat
        } else {
            0nat
        },
{
    assert(s.take(i + 1).drop_last() =~= s.take(i));
}

// ---------------------------------------------------------------------------
// Order
// ---------------------------------------------------------------------------
/// `x` placed in a sequence behind everything that it does not precede, looking from the end.
pub open spec fn placed<R>(s: Seq<R>, x: R, lt: spec_fn(R, R) -> bool) -> Seq<R>
    decreases s.len(),
{
    if s.len() > 0 && lt(x, s.last()) {
        placed(s.drop_last(), x, lt).push(s.last())
    } else {
        s.push(x)
    }
}

/// A sequence brought in order; rows of which neither precedes the other keep their order.
pub open spec fn sorted_by<R>(s: Seq<R>, lt: spec_fn(R, R) -> bool) -> Seq<R>
    decreases s.len(),
{
    if s.len() == 0 {
        s
    } else {
        placed(sorted_by(s.drop_last(), lt), s.last(), lt)
    }
}

/// Whether no later row precedes an earlier one.
pub open spec fn in_order<R>(s: Seq<R>, lt: spec_fn(R, R) -> bool) -> bool {
    forall|i: int, j: int| 0 <= i < j < s.len() ==> !lt(#[trigger] s[j], #[trigger] s[i])
}

/// Whether `lt` is a strict order in which being alike is transitive.
pub open spec fn orders<R>(lt: spec_fn(R, R) -> bool) -> bool {
    &&& forall|a: R, b: R| #[trigger] lt(a, b) ==> !lt(b, a)
    &&& forall|a: R, b: R, c: R| !(#[trigger] lt(a, b)) && !(#[trigger] lt(b, c)) ==> !lt(a, c)
}

pub proof fn lemma_placed_at<R>(s: Seq<R>, x: R, lt: spec_fn(R, R) -> bool, pos: int)
    requires
        0 <= pos <= s.len(),
        forall|k: int| pos <= k < s.len() ==> lt(x, #[trigger] s[k]),
        pos > 0 ==> !lt(x, s[pos - 1]),
    ensures
        placed(s, x, lt) == s.insert(pos, x),
    decreases s.len(),
{
    if pos < s.len() {
        let t = s.drop_last();
        assert forall|k: int| pos <= k < t.len() implies lt(x, #[trigger] t[k]) by {
            assert(lt(x, s[k]));
        }
        lemma_placed_at(t, x, lt, pos);
        assert(s.last() == s[s.len() - 1]);
        assert(t.insert(pos, x).push(s.last()) =~= s.insert(pos, x));
    } else {
        assert(s.push(x) =~= s.insert(pos, x));
    }
}

proof fn lemma_placed<R>(s: Seq<R>, x: R, lt: spec_fn(R, R) -> bool)
    ensures
        placed(s, x, lt).to_multiset() == s.to_multiset().insert(x),
        placed(s, x, lt).len() == s.len() + 1,
        forall|i: int|
            0 <= i <= s.len() ==> (#[trigger] placed(s, x, lt)[i]) == x || s.contains(
                placed(s, x, lt)[i],
            ),
        orders(lt) && in_order(s, lt) ==> in_order(placed(s, x, lt), lt),
    decreases s.len(),
{
    broadcast use vstd::seq_lib::group_to_multiset_ensures;

    let r = placed(s, x, lt);
    if s.len() > 0 && lt(x, s.last()) {
        let t = s.drop_last();
        let u = placed(t, x, lt);
        lemma_placed(t, x, lt);
        assert(s =~= t.push(s.last()));
        assert(r.to_multiset() =~= s.to_multiset().insert(x));
        assert forall|i: int| 0 <= i <= s.len() implies (#[trigger] r[i]) == x || s.contains(
            r[i],
        ) by {
            if i < u.len() {
                assert(r[i] == u[i]);
                if u[i] != x {
                    let k = choose|k: int| 0 <= k < t.len() && t[k] == u[i];
                    assert(s[k] == r[i]);
                }
            } else {
                assert(s[s.len() - 1] == r[i]);
            }
        }
        if orders(lt) && in_order(s, lt) {
            assert forall|i: int, j: int| 0 <= i < j < t.len() implies !lt(
                #[trigger] t[j],
                #[trigger] t[i],
            ) by {
                assert(!lt(s[j], s[i]));
            }
            assert forall|i: int, j: int| 0 <= i < j < r.len() implies !lt(
                #[trigger] r[j],
                #[trigger] r[i],
            ) by {
                if j < u.len() {
                    assert(!lt(u[j], u[i]));
                } else if u[i] != x {
                    let k = choose|k: int| 0 <= k < t.len() && t[k] == u[i];
                    assert(!lt(s[s.len() - 1], s[k]));
                } else {
                    assert(lt(x, s.last()));
                }
            }
        }
    } else {
        assert forall|i: int| 0 <= i <= s.len() implies (#[trigger] r[i]) == x || s.contains(
            r[i],
        ) by {
            if i < s.len() {
                assert(s[i] == r[i]);
            }
        }
        if orders(lt) && in_order(s, lt) {
            assert forall|i: int, j: int| 0 <= i < j < r.len() implies !lt(
                #[trigger] r[j],
                #[trigger] r[i],
            ) by {
                if j < s.len() {
                    assert(!lt(s[j], s[i]));
                } else {
                    assert(!lt(x, s[s.len() - 1]));
                    if i < s.len() - 1 {
                        assert(!lt(s[s.len() - 1], s[i]));
                    }
                }
            }
        }
    }
}

/// Bringing rows in order neither adds nor loses any, and they are in order then.
pub proof fn lemma_sorted<R>(s: Seq<R>, lt: spec_fn(R, R) -> bool)
    ensures
        sorted_by(s, lt).to_multiset() == s.to_multiset(),
        sorted_by(s, lt).len() == s.len(),
        orders(lt) ==> in_order(sorted_by(s, lt), lt),
    decreases s.len(),
{
    broadcast use vstd::seq_lib::group_to_multiset_ensures;

    if s.len() > 0 {
        lemma_sorted(s.drop_last(), lt);
        lemma_placed(sorted_by(s.drop_last(), lt), s.last(), lt);
        assert(s =~= s.drop_last().push(s.last()));
    }
}

/// Bringing rows in order keeps those that are alike as they stood: what held of every row and each
/// row behind it still holds, unless the order put them so.
pub proof fn lemma_stable<R>(s: Seq<R>, lt: spec_fn(R, R) -> bool, rel: spec_fn(R, R) -> bool)
    requires
        pairwise(s, rel),
    ensures
        pairwise(sorted_by(s, lt), |a: R, b: R| lt(a, b) || rel(a, b)),
    decreases s.len(),
{
    broadcast use vstd::seq_lib::group_to_multiset_ensures;

    let both = |a: R, b: R| lt(a, b) || rel(a, b);
    if s.len() > 0 {
        let t = s.drop_last();
        let u = sorted_by(t, lt);
        lemma_stable(t, lt, rel);
        lemma_sorted(t, lt);
        assert forall|i: int| 0 <= i < u.len() implies rel(#[trigger] u[i], s.last()) by {
            assert(u.contains(u[i]));
            assert(u.to_multiset().count(u[i]) > 0);
            assert(t.contains(u[i]));
            let k = choose|k: int| 0 <= k < t.len() && t[k] == u[i];
            assert(rel(s[k], s[s.len() - 1]));
        }
        lemma_placed_stable(u, s.last(), lt, rel);
        assert(pairwise(sorted_by(s, lt), both));
    }
}

proof fn lemma_placed_stable<R>(
    s: Seq<R>,
    x: R,
    lt: spec_fn(R, R) -> bool,
    rel: spec_fn(R, R) -> bool,
)
    requires
        pairwise(s, |a: R, b: R| lt(a, b) || rel(a, b)),
        forall|i: int| 0 <= i < s.len() ==> rel(#[trigger] s[i], x),
    ensures
        pairwise(placed(s, x, lt), |a: R, b: R| lt(a, b) || rel(a, b)),
    decreases s.len(),
{
    let both = |a: R, b: R| lt(a, b) || rel(a, b);
    let r = placed(s, x, lt);
    if s.len() > 0 && lt(x, s.last()) {
        let t = s.drop_last();
        let u = placed(t, x, lt);
        lemma_placed_stable(t, x, lt, rel);
        lemma_placed(t, x, lt);
        assert forall|i: int, j: int| 0 <= i < j < r.len() implies both(
            #[trigger] r[i],
            #[trigger] r[j],
        ) by {
            if j < u.len() {
                assert(r[i] == u[i] && r[j] == u[j]);
            } else {
                assert(r[j] == s.last());
                assert(r[i] == u[i]);
                if u[i] != x {
                    assert(t.contains(u[i]));
                    let k = choose|k: int| 0 <= k < t.len() && t[k] == u[i];
                    assert(both(s[k], s[s.len() - 1]));
                }
            }
        }
    } else {
        assert forall|i: int, j: int| 0 <= i < j < r.len() implies both(
            #[trigger] r[i],
            #[trigger] r[j],
        ) by {
            assert(r[i] == s[i]);
            if j < s.len() {
                assert(both(s[i], s[j]));
            }
        }
    }
}

/// Where every row passes, all are kept.
pub proof fn lemma_all_kept<R>(s: Seq<R>, p: spec_fn(R) -> bool)
    requires
        forall|i: int| 0 <= i < s.len() ==> p(#[trigger] s[i]),
    ensures
        s.filter(p) == s,
    decreases s.len(),
{
    reveal(Seq::filter);
    if s.len() > 0 {
        let t = s.drop_last();
        assert forall|i: int| 0 <= i < t.len() implies p(#[trigger] t[i]) by {
            assert(t[i] == s[i]);
        }
        lemma_all_kept(t, p);
        assert(p(s[s.len() - 1]));
        assert(s =~= t.push(s.last()));
    } else {
        assert(s.filter(p) =~= s);
    }
}

// ---------------------------------------------------------------------------
// Executable queries
// ---------------------------------------------------------------------------
/// The rows of a list, as contracts see them.
pub open spec fn views<R: View>(s: Seq<R>) -> Seq<R::V> {
    Seq::new(s.len(), |i: int| s[i]@)
}

/// Whether a test on rows decides the condition `p`.
pub open spec fn decides<R: View, F: Fn(&R) -> bool>(f: F, p: spec_fn(R::V) -> bool) -> bool {
    &&& forall|r: &R| #[trigger] call_requires(f, (r,))
    &&& forall|r: &R, b: bool| #[trigger] call_ensures(f, (r,), b) ==> b == p(r@)
}

/// The position of the first row that passes a test.
pub fn find_row<R: View, F: Fn(&R) -> bool>(
    v: &Vec<R>,
    f: F,
    Ghost(p): Ghost<spec_fn(R::V) -> bool>,
) -> (r: Option<usize>)
    requires
        decides(f, p),
    ensures
        match r {
            Some(i) => first_at(views(v@), p, i as int) && first(views(v@), p) == Some(
                v@[i as int]@,
            ) && any(views(v@), p),
            None => first(views(v@), p) is None && !any(views(v@), p),
        },
{
    for i in 0..v.len()
        invariant
            decides(f, p),
            forall|j: int| 0 <= j < i ==> !p(#[trigger] views(v@)[j]),
    {
        if f(&v[i]) {
            proof {
                lemma_first_found(views(v@), p, i as int);
            }
            return Some(i);
        }
    }
    None
}

/// How many rows pass a test.
pub fn count_rows<R: View, F: Fn(&R) -> bool>(
    v: &Vec<R>,
    f: F,
    Ghost(p): Ghost<spec_fn(R::V) -> bool>,
) -> (r: usize)
    requires
        decides(f, p),
    ensures
        r == count(views(v@), p),
{
    let mut n: usize = 0;
    for i in 0..v.len()
        invariant
            decides(f, p),
            n == count(views(v@).take(i as int), p),
            n <= i,
    {
        proof {
            lemma_count_step(views(v@), p, i as int);
        }
        if f(&v[i]) {
            n = n + 1;
        }
    }
    assert(views(v@).take(v@.len() as int) =~= views(v@));
    n
}

/// The positions of the rows that pass a test, in order.
pub fn positions<R: View, F: Fn(&R) -> bool>(
    v: &Vec<R>,
    f: F,
    Ghost(p): Ghost<spec_fn(R::V) -> bool>,
) -> (r: Vec<usize>)
    requires
        decides(f, p),
    ensures
        r@.len() == views(v@).filter(p).len(),
        forall|k: int|
            0 <= k < r@.len() ==> (#[trigger] r@[k]) < v@.len() && v@[r@[k] as int]@ == views(
                v@,
            ).filter(p)[k],
{
    let mut r: Vec<usize> = Vec::new();
    assert(views(v@).take(0).filter(p) =~= Seq::empty()) by {
        reveal(Seq::filter);
    }
    for i in 0..v.len()
        invariant
            decides(f, p),
            r@.len() == views(v@).take(i as int).filter(p).len(),
            forall|k: int|
                0 <= k < r@.len() ==> (#[trigger] r@[k]) < v@.len() && v@[r@[k] as int]@ == views(
                    v@,
                ).take(i as int).filter(p)[k],
    {
        proof {
            lemma_filter_step(views(v@), p, i as int);
        }
        if f(&v[i]) {
            r.push(i);
        }
    }
    assert(views(v@).take(v@.len() as int) =~= views(v@));
    r
}

/// Keeps the rows that pass a test.
pub fn keep_rows<R: View, F: Fn(&R) -> bool>(
    v: &mut Vec<R>,
    f: F,
    Ghost(p): Ghost<spec_fn(R::V) -> bool>,
)
    requires
        decides(f, p),
    ensures
        views(final(v)@) == views(old(v)@).filter(p),
{
    let mut back: Vec<R> = Vec::new();
    let ghost all = v@;
    while v.len() > 0
        invariant
            v@.len() + back@.len() == all.len(),
            v@ == all.take(v@.len() as int),
            forall|k: int|
                0 <= k < back@.len() ==> (#[trigger] back@[k]) == all[all.len() - 1 - k],
        decreases v@.len(),
    {
        match v.pop() {
            Some(r) => {
                back.push(r);
            },
            None => {},
        }
    }
    let ghost s = views(all);
    assert(s.take(0).filter(p) =~= Seq::empty()) by {
        reveal(Seq::filter);
    }
    while back.len() > 0
        invariant
            decides(f, p),
            s == views(all),
            back@.len() <= all.len(),
            views(v@) == s.take(all.len() - back@.len()).filter(p),
            forall|k: int|
                0 <= k < back@.len() ==> (#[trigger] back@[k]) == all[all.len() - 1 - k],
        decreases back@.len(),
    {
        let ghost i = all.len() - back@.len();
        let ghost w = v@;
        assert(back@[back@.len() - 1] == all[i]);
        match back.pop() {
            Some(r) => {
                proof {
                    lemma_filter_step(s, p, i);
                }
                if f(&r) {
                    v.push(r);
                    assert(views(v@) =~= views(w).push(s[i]));
                }
            },
            None => {},
        }
    }
    assert(s.take(all.len() as int) =~= s);
}

/// The rows at some positions.
pub open spec fn picked<R: View>(v: Seq<R>, at: Seq<usize>) -> Seq<R::V> {
    Seq::new(at.len(), |k: int| v[at[k] as int]@)
}

/// Whether every position lies in a list of the given length.
pub open spec fn within(at: Seq<usize>, len: nat) -> bool {
    forall|k: int| 0 <= k < at.len() ==> (#[trigger] at[k]) < len
}

/// Whether a comparison of rows decides the order `lt`.
pub open spec fn compares<R: View, F: Fn(&R, &R) -> bool>(
    f: F,
    lt: spec_fn(R::V, R::V) -> bool,
) -> bool {
    &&& forall|a: &R, b: &R| #[trigger] call_requires(f, (a, b))
    &&& forall|a: &R, b: &R, r: bool| #[trigger] call_ensures(f, (a, b), r) ==> r == lt(a@, b@)
}

/// Brings positions in the order of their rows.
pub fn sort_positions<R: View, F: Fn(&R, &R) -> bool>(
    v: &Vec<R>,
    at: &Vec<usize>,
    f: F,
    Ghost(lt): Ghost<spec_fn(R::V, R::V) -> bool>,
) -> (r: Vec<usize>)
    requires
        within(at@, v@.len()),
        compares(f, lt),
    ensures
        within(r@, v@.len()),
        r@.len() == at@.len(),
        picked(v@, r@) == sorted_by(picked(v@, at@), lt),
{
    let ghost t = picked(v@, at@);
    let mut r: Vec<usize> = Vec::new();
    assert(picked(v@, r@) =~= sorted_by(t.take(0), lt));
    for i in 0..at.len()
        invariant
            within(at@, v@.len()),
            within(r@, v@.len()),
            r@.len() == i,
            compares(f, lt),
            t == picked(v@, at@),
            picked(v@, r@) == sorted_by(t.take(i as int), lt),
    {
        let ghost s = picked(v@, r@);
        let ghost x = t[i as int];
        let n: usize = at[i];
        let mut pos: usize = r.len();
        while pos > 0 && f(&v[n], &v[r[pos - 1]])
            invariant
                within(r@, v@.len()),
                compares(f, lt),
                n < v@.len(),
                x == v@[n as int]@,
                pos <= r@.len(),
                s == picked(v@, r@),
                forall|k: int| pos <= k < s.len() ==> lt(x, #[trigger] s[k]),
            decreases pos,
        {
            pos = pos - 1;
        }
        r.insert(pos, n);
        proof {
            lemma_placed_at(s, x, lt, pos as int);
            assert(t.take(i + 1).drop_last() =~= t.take(i as int));
            assert(picked(v@, r@) =~= s.insert(pos as int, x));
        }
    }
    assert(t.take(at@.len() as int) =~= t);
    r
}

} // verus!
