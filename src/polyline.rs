//! Polylines as sequences of `[x, y]` points, and the multiset of points that a
//! list of polylines holds.
use vstd::prelude::*;
use vstd::multiset::Multiset;
use vstd::seq_lib::lemma_multiset_commutative;

verus! {

/// The point sequences of a list of polylines.
pub open spec fn lines(c: Seq<Vec<[usize; 2]>>) -> Seq<Seq<[usize; 2]>> {
    c.map_values(|v: Vec<[usize; 2]>| v@)
}

/// Every polyline has at least two points.
pub open spec fn well_formed(c: Seq<Seq<[usize; 2]>>) -> bool {
    forall|k: int| 0 <= k < c.len() ==> #[trigger] c[k].len() >= 2
}

/// Every point of every polyline lies in the rectangle `[x0, x1) × [y0, y1)`.
pub open spec fn within(c: Seq<Seq<[usize; 2]>>, x0: int, y0: int, x1: int, y1: int) -> bool {
    forall|k: int, q: int|
        0 <= k < c.len() && 0 <= q < c[k].len() ==> x0 <= #[trigger] c[k][q][0] < x1 && y0
            <= c[k][q][1] < y1
}

/// The multiset of all points held by a list of polylines.
pub open spec fn pts(c: Seq<Seq<[usize; 2]>>) -> Multiset<[usize; 2]>
    decreases c.len(),
{
    if c.len() == 0 {
        Multiset::empty()
    } else {
        pts(c.drop_last()).add(c.last().to_multiset())
    }
}

pub proof fn lemma_pts_concat(a: Seq<Seq<[usize; 2]>>, b: Seq<Seq<[usize; 2]>>)
    ensures
        pts(a + b) =~= pts(a).add(pts(b)),
    decreases b.len(),
{
    broadcast use vstd::multiset::group_multiset_axioms;

    if b.len() == 0 {
        assert(a + b =~= a);
    } else {
        assert((a + b).drop_last() =~= a + b.drop_last());
        lemma_pts_concat(a, b.drop_last());
    }
}

pub proof fn lemma_pts_update(c: Seq<Seq<[usize; 2]>>, j: int, v: Seq<[usize; 2]>)
    requires
        0 <= j < c.len(),
    ensures
        pts(c.update(j, v)).add(c[j].to_multiset()) =~= pts(c).add(v.to_multiset()),
    decreases c.len(),
{
    broadcast use vstd::multiset::group_multiset_axioms;

    let u = c.update(j, v);
    assert(pts(u) == pts(u.drop_last()).add(u.last().to_multiset()));
    assert(pts(c) == pts(c.drop_last()).add(c.last().to_multiset()));
    if j == c.len() - 1 {
        assert(u.drop_last() =~= c.drop_last());
        assert(u.last() == v);
    } else {
        assert(u.drop_last() =~= c.drop_last().update(j, v));
        assert(u.last() == c.last());
        assert(c.drop_last()[j] == c[j]);
        lemma_pts_update(c.drop_last(), j, v);
    }
    assert forall|p: [usize; 2]| #[trigger] pts(u).add(c[j].to_multiset()).count(p) == pts(c).add(
        v.to_multiset(),
    ).count(p) by {
        if j < c.len() - 1 {
            let d = c.drop_last();
            assert(pts(d.update(j, v)).add(c[j].to_multiset()).count(p) == pts(d).add(
                v.to_multiset(),
            ).count(p));
        }
    }
}

pub proof fn lemma_pts_remove(c: Seq<Seq<[usize; 2]>>, i: int)
    requires
        0 <= i < c.len(),
    ensures
        pts(c.remove(i)).add(c[i].to_multiset()) =~= pts(c),
    decreases c.len(),
{
    broadcast use vstd::multiset::group_multiset_axioms;

    let r = c.remove(i);
    assert(pts(c) == pts(c.drop_last()).add(c.last().to_multiset()));
    if i == c.len() - 1 {
        assert(r =~= c.drop_last());
    } else {
        assert(r.drop_last() =~= c.drop_last().remove(i));
        assert(r.last() == c.last());
        lemma_pts_remove(c.drop_last(), i);
    }
}

/// Joining two point sequences keeps every point of both.
pub proof fn lemma_join_points(a: Seq<[usize; 2]>, b: Seq<[usize; 2]>)
    ensures
        (a + b).to_multiset() =~= a.to_multiset().add(b.to_multiset()),
        a.reverse().to_multiset() =~= a.to_multiset(),
{
    lemma_multiset_commutative(a, b);
    a.lemma_reverse_to_multiset();
}

/// Every point of `f` lies in the rectangle `[x0, x1) × [y0, y1)`.
pub open spec fn line_within(f: Seq<[usize; 2]>, x0: int, y0: int, x1: int, y1: int) -> bool {
    forall|q: int| 0 <= q < f.len() ==> x0 <= #[trigger] f[q][0] < x1 && y0 <= f[q][1] < y1
}

pub proof fn lemma_within_update(c: Seq<Seq<[usize; 2]>>, j: int, v: Seq<[usize; 2]>, x0: int, y0: int, x1: int, y1: int)
    requires
        within(c, x0, y0, x1, y1),
        line_within(v, x0, y0, x1, y1),
    ensures
        0 <= j < c.len() ==> within(c.update(j, v), x0, y0, x1, y1),
        within(c.push(v), x0, y0, x1, y1),
{
    if 0 <= j < c.len() {
        let u = c.update(j, v);
        assert forall|k: int, q: int| 0 <= k < u.len() && 0 <= q < u[k].len() implies x0
            <= #[trigger] u[k][q][0] < x1 && y0 <= u[k][q][1] < y1 by {
            if k != j {
                assert(u[k] == c[k]);
            }
        }
    }
    let u = c.push(v);
    assert forall|k: int, q: int| 0 <= k < u.len() && 0 <= q < u[k].len() implies x0
        <= #[trigger] u[k][q][0] < x1 && y0 <= u[k][q][1] < y1 by {
        if k < c.len() {
            assert(u[k] == c[k]);
        }
    }
}

pub proof fn lemma_within_widen(c: Seq<Seq<[usize; 2]>>, x0: int, y0: int, x1: int, y1: int, a0: int, b0: int, a1: int, b1: int)
    requires
        within(c, x0, y0, x1, y1),
        a0 <= x0 && b0 <= y0 && x1 <= a1 && y1 <= b1,
    ensures
        within(c, a0, b0, a1, b1),
{
    assert forall|k: int, q: int| 0 <= k < c.len() && 0 <= q < c[k].len() implies a0
        <= #[trigger] c[k][q][0] < a1 && b0 <= c[k][q][1] < b1 by {
        assert(x0 <= c[k][q][0] < x1 && y0 <= c[k][q][1] < y1);
    }
}

/// Index-wise copy of `f` in reverse order.
pub fn reversed(f: &Vec<[usize; 2]>) -> (r: Vec<[usize; 2]>)
    ensures
        r@ == f@.reverse(),
{
    let n: usize = f.len();
    let mut r: Vec<[usize; 2]> = Vec::with_capacity(n);
    let mut k: usize = 0;
    while k < n
        invariant
            n == f@.len(),
            k <= n,
            r@ =~= f@.reverse().take(k as int),
        decreases n - k,
    {
        r.push(f[n - 1 - k]);
        k = k + 1;
    }
    assert(f@.reverse().take(n as int) =~= f@.reverse());
    r
}

/// The points of `a` followed by those of `b`.
pub fn joined(a: &Vec<[usize; 2]>, b: &Vec<[usize; 2]>) -> (r: Vec<[usize; 2]>)
    ensures
        r@ == a@ + b@,
{
    let mut r: Vec<[usize; 2]> = Vec::new();
    let mut k: usize = 0;
    while k < a.len()
        invariant
            k <= a@.len(),
            r@ =~= a@.take(k as int),
        decreases a@.len() - k,
    {
        r.push(a[k]);
        k = k + 1;
    }
    let mut k: usize = 0;
    while k < b.len()
        invariant
            k <= b@.len(),
            r@ =~= a@ + b@.take(k as int),
        decreases b@.len() - k,
    {
        r.push(b[k]);
        k = k + 1;
    }
    assert(b@.take(b@.len() as int) =~= b@);
    r
}

} // verus!
