//! Joining the polyline fragments of two sibling chunks across their seam.
use vstd::prelude::*;
use vstd::multiset::Multiset;
use crate::polyline::{
    joined, lemma_join_points, lemma_pts_concat, lemma_pts_remove, lemma_pts_update, lines, pts,
    reversed, well_formed, within,
};

verus! {

/// The head (first point) or the tail (last point) of a polyline.
pub open spec fn end(f: Seq<[usize; 2]>, head: bool) -> [usize; 2] {
    if head {
        f[0]
    } else {
        f.last()
    }
}

/// The coordinate of `p` across the seam line: `y` for a seam along a row
/// (`vertical` split), `x` for one along a column.
pub open spec fn along(p: [usize; 2], vertical: bool) -> int {
    if vertical {
        p[1] as int
    } else {
        p[0] as int
    }
}

/// The coordinate of `p` parallel to the seam line.
pub open spec fn across(p: [usize; 2], vertical: bool) -> int {
    if vertical {
        p[0] as int
    } else {
        p[1] as int
    }
}

pub open spec fn dist(a: int, b: int) -> int {
    if a >= b {
        a - b
    } else {
        b - a
    }
}

/// The fragment `f0` can take, at its `head0` end, an endpoint `p1` lying on seam `sx`.
pub open spec fn candidate(f0: Seq<[usize; 2]>, head0: bool, p1: [usize; 2], sx: int, vertical: bool) -> bool {
    &&& dist(along(end(f0, head0), vertical), sx) <= 1
    &&& dist(across(end(f0, head0), vertical), across(p1, vertical)) < 4
}

pub open spec fn gap(f0: Seq<[usize; 2]>, head0: bool, p1: [usize; 2], vertical: bool) -> int {
    dist(across(end(f0, head0), vertical), across(p1, vertical))
}

/// `j` is the first of the candidates in `c0` whose end is nearest to `p1`.
pub open spec fn is_best(c0: Seq<Seq<[usize; 2]>>, j: int, head0: bool, p1: [usize; 2], sx: int, vertical: bool) -> bool {
    &&& 0 <= j < c0.len()
    &&& candidate(c0[j], head0, p1, sx, vertical)
    &&& forall|k: int|
        0 <= k < c0.len() && #[trigger] candidate(c0[k], head0, p1, sx, vertical) ==> gap(
            c0[j],
            head0,
            p1,
            vertical,
        ) <= gap(c0[k], head0, p1, vertical) && (k < j ==> gap(c0[j], head0, p1, vertical) < gap(
            c0[k],
            head0,
            p1,
            vertical,
        ))
}

/// `f0` and `f1` joined so that the `head0` end of `f0` meets the `head1` end of `f1`.
pub open spec fn spliced(f0: Seq<[usize; 2]>, f1: Seq<[usize; 2]>, head0: bool, head1: bool) -> Seq<[usize; 2]> {
    if head0 && head1 {
        f1.reverse() + f0
    } else if !head0 && head1 {
        f0 + f1
    } else if head0 && !head1 {
        f1 + f0
    } else {
        f0 + f1.reverse()
    }
}

/// One merge attempt of fragment `i` of `c1` into `c0` in `mode`: bit 1 of the mode
/// picks the head (else the tail) of the `c0` fragment, bit 0 the head (else the
/// tail) of the `c1` fragment. Gives both lists afterwards and whether it joined.
pub open spec fn attempt(c0: Seq<Seq<[usize; 2]>>, c1: Seq<Seq<[usize; 2]>>, i: int, sx: int, vertical: bool, mode: int) -> (Seq<Seq<[usize; 2]>>, Seq<Seq<[usize; 2]>>, bool) {
    let head0 = (mode / 2) % 2 == 1;
    let head1 = mode % 2 == 1;
    let p1 = end(c1[i], head1);
    if along(p1, vertical) == sx && exists|j: int| is_best(c0, j, head0, p1, sx, vertical) {
        let j = choose|j: int| is_best(c0, j, head0, p1, sx, vertical);
        (c0.update(j, spliced(c0[j], c1[i], head0, head1)), c1.remove(i), true)
    } else {
        (c0, c1, false)
    }
}

/// Fragment `i` of `c1` tried in the modes tail–head, head–head, tail–tail, head–tail.
pub open spec fn merge_one(c0: Seq<Seq<[usize; 2]>>, c1: Seq<Seq<[usize; 2]>>, i: int, sx: int, vertical: bool) -> (Seq<Seq<[usize; 2]>>, Seq<Seq<[usize; 2]>>) {
    let a = attempt(c0, c1, i, sx, vertical, 1);
    let b = attempt(c0, c1, i, sx, vertical, 3);
    let c = attempt(c0, c1, i, sx, vertical, 0);
    let d = attempt(c0, c1, i, sx, vertical, 2);
    if a.2 {
        (a.0, a.1)
    } else if b.2 {
        (b.0, b.1)
    } else if c.2 {
        (c.0, c.1)
    } else {
        (d.0, d.1)
    }
}

/// Fragments `i - 1` down to `0` of `c1` tried in turn.
pub open spec fn merge_pass(c0: Seq<Seq<[usize; 2]>>, c1: Seq<Seq<[usize; 2]>>, i: int, sx: int, vertical: bool) -> (Seq<Seq<[usize; 2]>>, Seq<Seq<[usize; 2]>>)
    decreases i,
{
    if i <= 0 {
        (c0, c1)
    } else {
        let r = merge_one(c0, c1, i - 1, sx, vertical);
        merge_pass(r.0, r.1, i - 1, sx, vertical)
    }
}

/// The fragments of `c0` and `c1` after merging across the seam `sx`.
pub open spec fn merged(c0: Seq<Seq<[usize; 2]>>, c1: Seq<Seq<[usize; 2]>>, sx: int, vertical: bool) -> Seq<Seq<[usize; 2]>> {
    if c0.len() == 0 {
        c1
    } else if c1.len() == 0 {
        c0
    } else {
        let r = merge_pass(c0, c1, c1.len() as int, sx, vertical);
        r.0 + r.1
    }
}

proof fn lemma_best_unique(c0: Seq<Seq<[usize; 2]>>, j1: int, j2: int, head0: bool, p1: [usize; 2], sx: int, vertical: bool)
    requires
        is_best(c0, j1, head0, p1, sx, vertical),
        is_best(c0, j2, head0, p1, sx, vertical),
    ensures
        j1 == j2,
{
    assert(candidate(c0[j1], head0, p1, sx, vertical));
    assert(candidate(c0[j2], head0, p1, sx, vertical));
}

/// A merge attempt keeps every point, keeps fragments of two or more points,
/// and keeps them inside a rectangle, and removes a fragment of `c1` when it joins.
pub proof fn lemma_attempt(c0: Seq<Seq<[usize; 2]>>, c1: Seq<Seq<[usize; 2]>>, i: int, sx: int, vertical: bool, mode: int, x0: int, y0: int, x1: int, y1: int)
    requires
        0 <= i < c1.len(),
        well_formed(c0),
        well_formed(c1),
    ensures
        ({
            let r = attempt(c0, c1, i, sx, vertical, mode);
            &&& pts(r.0).add(pts(r.1)) =~= pts(c0).add(pts(c1))
            &&& well_formed(r.0)
            &&& well_formed(r.1)
            &&& r.0.len() == c0.len()
            &&& r.1.len() == (if r.2 { c1.len() - 1 } else { c1.len() as int })
            &&& r.1 =~= (if r.2 { c1.remove(i) } else { c1 })
            &&& (within(c0, x0, y0, x1, y1) && within(c1, x0, y0, x1, y1)) ==> within(r.0, x0, y0, x1, y1) && within(r.1, x0, y0, x1, y1)
        }),
{
    broadcast use vstd::multiset::group_multiset_axioms;

    let r = attempt(c0, c1, i, sx, vertical, mode);
    if r.2 {
        let head0 = (mode / 2) % 2 == 1;
        let head1 = mode % 2 == 1;
        let p1 = end(c1[i], head1);
        let j = choose|j: int| is_best(c0, j, head0, p1, sx, vertical);
        let v = spliced(c0[j], c1[i], head0, head1);
        lemma_join_points(c0[j], c1[i]);
        lemma_join_points(c1[i].reverse(), c0[j]);
        lemma_join_points(c1[i], c0[j]);
        lemma_join_points(c0[j], c1[i].reverse());
        assert(v.to_multiset() =~= c0[j].to_multiset().add(c1[i].to_multiset()));
        lemma_pts_update(c0, j, v);
        lemma_pts_remove(c1, i);
        assert forall|p: [usize; 2]| #[trigger] pts(r.0).add(pts(r.1)).count(p) == pts(c0).add(
            pts(c1),
        ).count(p) by {
            assert(pts(r.0).add(c0[j].to_multiset()).count(p) == pts(c0).add(v.to_multiset()).count(p));
            assert(pts(r.1).add(c1[i].to_multiset()).count(p) == pts(c1).count(p));
        }
        assert(well_formed(r.0)) by {
            assert forall|k: int| 0 <= k < r.0.len() implies #[trigger] r.0[k].len() >= 2 by {
                if k != j {
                    assert(r.0[k] == c0[k]);
                }
            }
        }
        assert(well_formed(r.1)) by {
            assert forall|k: int| 0 <= k < r.1.len() implies #[trigger] r.1[k].len() >= 2 by {
                if k < i {
                    assert(r.1[k] == c1[k]);
                } else {
                    assert(r.1[k] == c1[k + 1]);
                }
            }
        }
        if within(c0, x0, y0, x1, y1) && within(c1, x0, y0, x1, y1) {
            assert forall|k: int, q: int| 0 <= k < r.0.len() && 0 <= q < r.0[k].len() implies x0
                <= #[trigger] r.0[k][q][0] < x1 && y0 <= r.0[k][q][1] < y1 by {
                if k == j {
                    let (f0, f1) = (c0[j], c1[i]);
                    if head0 && head1 {
                        if q < f1.len() {
                            assert(v[q] == f1[f1.len() - 1 - q]);
                        } else {
                            assert(v[q] == f0[q - f1.len()]);
                        }
                    } else if !head0 && head1 {
                        if q < f0.len() {
                            assert(v[q] == f0[q]);
                        } else {
                            assert(v[q] == f1[q - f0.len()]);
                        }
                    } else if head0 && !head1 {
                        if q < f1.len() {
                            assert(v[q] == f1[q]);
                        } else {
                            assert(v[q] == f0[q - f1.len()]);
                        }
                    } else {
                        if q < f0.len() {
                            assert(v[q] == f0[q]);
                        } else {
                            assert(v[q] == f1[f1.len() - 1 - (q - f0.len())]);
                        }
                    }
                } else {
                    assert(r.0[k] == c0[k]);
                }
            }
            assert forall|k: int, q: int| 0 <= k < r.1.len() && 0 <= q < r.1[k].len() implies x0
                <= #[trigger] r.1[k][q][0] < x1 && y0 <= r.1[k][q][1] < y1 by {
                if k < i {
                    assert(r.1[k] == c1[k]);
                } else {
                    assert(r.1[k] == c1[k + 1]);
                }
            }
        }
    }
}

proof fn lemma_merge_one(c0: Seq<Seq<[usize; 2]>>, c1: Seq<Seq<[usize; 2]>>, i: int, sx: int, vertical: bool, x0: int, y0: int, x1: int, y1: int)
    requires
        0 <= i < c1.len(),
        well_formed(c0),
        well_formed(c1),
    ensures
        ({
            let r = merge_one(c0, c1, i, sx, vertical);
            &&& pts(r.0).add(pts(r.1)) =~= pts(c0).add(pts(c1))
            &&& well_formed(r.0)
            &&& well_formed(r.1)
            &&& r.1.len() >= i
            &&& (within(c0, x0, y0, x1, y1) && within(c1, x0, y0, x1, y1)) ==> within(r.0, x0, y0, x1, y1) && within(r.1, x0, y0, x1, y1)
        }),
{
    lemma_attempt(c0, c1, i, sx, vertical, 1, x0, y0, x1, y1);
    lemma_attempt(c0, c1, i, sx, vertical, 3, x0, y0, x1, y1);
    lemma_attempt(c0, c1, i, sx, vertical, 0, x0, y0, x1, y1);
    lemma_attempt(c0, c1, i, sx, vertical, 2, x0, y0, x1, y1);
}

proof fn lemma_merge_pass(c0: Seq<Seq<[usize; 2]>>, c1: Seq<Seq<[usize; 2]>>, i: int, sx: int, vertical: bool, x0: int, y0: int, x1: int, y1: int)
    requires
        0 <= i <= c1.len(),
        well_formed(c0),
        well_formed(c1),
    ensures
        ({
            let r = merge_pass(c0, c1, i, sx, vertical);
            &&& pts(r.0).add(pts(r.1)) =~= pts(c0).add(pts(c1))
            &&& well_formed(r.0)
            &&& well_formed(r.1)
            &&& (within(c0, x0, y0, x1, y1) && within(c1, x0, y0, x1, y1)) ==> within(r.0, x0, y0, x1, y1) && within(r.1, x0, y0, x1, y1)
        }),
    decreases i,
{
    if i > 0 {
        let r = merge_one(c0, c1, i - 1, sx, vertical);
        lemma_merge_one(c0, c1, i - 1, sx, vertical, x0, y0, x1, y1);
        lemma_merge_pass(r.0, r.1, i - 1, sx, vertical, x0, y0, x1, y1);
    }
}

/// Merging across a seam neither drops nor invents a point: the multiset of
/// points afterwards is that of both inputs together. Every merged polyline
/// still has two or more points, and all points stay inside any rectangle that
/// held both inputs.
pub proof fn lemma_merge_conserves(c0: Seq<Seq<[usize; 2]>>, c1: Seq<Seq<[usize; 2]>>, sx: int, vertical: bool, x0: int, y0: int, x1: int, y1: int)
    requires
        well_formed(c0),
        well_formed(c1),
    ensures
        pts(merged(c0, c1, sx, vertical)) =~= pts(c0).add(pts(c1)),
        well_formed(merged(c0, c1, sx, vertical)),
        within(c0, x0, y0, x1, y1) && within(c1, x0, y0, x1, y1) ==> within(
            merged(c0, c1, sx, vertical),
            x0,
            y0,
            x1,
            y1,
        ),
{
    broadcast use vstd::multiset::group_multiset_axioms;

    if c0.len() == 0 {
        assert(pts(c0) =~= Multiset::empty());
    } else if c1.len() == 0 {
        assert(pts(c1) =~= Multiset::empty());
    } else {
        let r = merge_pass(c0, c1, c1.len() as int, sx, vertical);
        lemma_merge_pass(c0, c1, c1.len() as int, sx, vertical, x0, y0, x1, y1);
        lemma_pts_concat(r.0, r.1);
        let m = r.0 + r.1;
        assert(well_formed(m)) by {
            assert forall|k: int| 0 <= k < m.len() implies #[trigger] m[k].len() >= 2 by {
                if k < r.0.len() {
                    assert(m[k] == r.0[k]);
                } else {
                    assert(m[k] == r.1[k - r.0.len()]);
                }
            }
        }
        if within(c0, x0, y0, x1, y1) && within(c1, x0, y0, x1, y1) {
            assert forall|k: int, q: int| 0 <= k < m.len() && 0 <= q < m[k].len() implies x0
                <= #[trigger] m[k][q][0] < x1 && y0 <= m[k][q][1] < y1 by {
                if k < r.0.len() {
                    assert(m[k] == r.0[k]);
                } else {
                    assert(m[k] == r.1[k - r.0.len()]);
                }
            }
        }
    }
}

fn abs_diff(a: usize, b: usize) -> (r: usize)
    ensures
        r == dist(a as int, b as int),
{
    if a >= b {
        a - b
    } else {
        b - a
    }
}

/// Tries once to join fragment `i` of `c1` onto a fragment of `c0` at the seam
/// `sx`, in `mode` (see `attempt`); on success the fragment leaves `c1`.
fn merge_impl(c0: &mut Vec<Vec<[usize; 2]>>, c1: &mut Vec<Vec<[usize; 2]>>, i: usize, sx: usize, vertical: bool, mode: u8) -> (r: bool)
    requires
        i < old(c1)@.len(),
        well_formed(lines(old(c0)@)),
        well_formed(lines(old(c1)@)),
    ensures
        (lines(final(c0)@), lines(final(c1)@), r) == attempt(
            lines(old(c0)@),
            lines(old(c1)@),
            i as int,
            sx as int,
            vertical,
            mode as int,
        ),
{
    let ghost l0 = lines(c0@);
    let ghost l1 = lines(c1@);
    let head0: bool = (mode / 2) % 2 == 1;
    let head1: bool = mode % 2 == 1;
    assert(l1[i as int] == c1@[i as int]@);
    assert(l1[i as int].len() >= 2);
    let p1: [usize; 2] = if head1 {
        c1[i][0]
    } else {
        c1[i][c1[i].len() - 1]
    };
    assert(p1 == end(l1[i as int], head1));
    let a1: usize = if vertical {
        p1[1]
    } else {
        p1[0]
    };
    let c1x: usize = if vertical {
        p1[0]
    } else {
        p1[1]
    };
    if a1 != sx {
        return false;
    }
    let mut found: bool = false;
    let mut mj: usize = 0;
    let mut md: usize = 4;
    let mut j: usize = 0;
    while j < c0.len()
        invariant
            l0 == lines(c0@),
            well_formed(l0),
            j <= c0@.len(),
            p1 == end(l1[i as int], head1),
            c1x == across(p1, vertical),
            found ==> mj < j && candidate(l0[mj as int], head0, p1, sx as int, vertical) && md == gap(l0[mj as int], head0, p1, vertical),
            !found ==> md == 4,
            forall|k: int|
                0 <= k < j && #[trigger] candidate(l0[k], head0, p1, sx as int, vertical) ==> found
                    && md <= gap(l0[k], head0, p1, vertical) && (k < mj ==> md < gap(
                    l0[k],
                    head0,
                    p1,
                    vertical,
                )),
        decreases c0@.len() - j,
    {
        assert(l0[j as int] == c0@[j as int]@);
        assert(l0[j as int].len() >= 2);
        let p0: [usize; 2] = if head0 {
            c0[j][0]
        } else {
            c0[j][c0[j].len() - 1]
        };
        assert(p0 == end(l0[j as int], head0));
        let a0: usize = if vertical {
            p0[1]
        } else {
            p0[0]
        };
        let x0: usize = if vertical {
            p0[0]
        } else {
            p0[1]
        };
        if abs_diff(a0, sx) <= 1 {
            let d: usize = abs_diff(x0, c1x);
            if d < md {
                found = true;
                mj = j;
                md = d;
            }
        }
        j = j + 1;
    }
    if !found {
        proof {
            if exists|q: int| is_best(l0, q, head0, p1, sx as int, vertical) {
                let q = choose|q: int| is_best(l0, q, head0, p1, sx as int, vertical);
                assert(candidate(l0[q], head0, p1, sx as int, vertical));
            }
        }
        return false;
    }
    proof {
        assert(is_best(l0, mj as int, head0, p1, sx as int, vertical));
        let q = choose|q: int| is_best(l0, q, head0, p1, sx as int, vertical);
        lemma_best_unique(l0, q, mj as int, head0, p1, sx as int, vertical);
    }
    let v: Vec<[usize; 2]> = if head0 && head1 {
        joined(&reversed(&c1[i]), &c0[mj])
    } else if !head0 && head1 {
        joined(&c0[mj], &c1[i])
    } else if head0 && !head1 {
        joined(&c1[i], &c0[mj])
    } else {
        joined(&c0[mj], &reversed(&c1[i]))
    };
    assert(v@ == spliced(l0[mj as int], l1[i as int], head0, head1));
    c0.set(mj, v);
    let _ = c1.remove(i);
    assert(lines(c0@) =~= l0.update(mj as int, v@));
    assert(lines(c1@) =~= l1.remove(i as int));
    true
}

/// Merges the fragments of `c1` into `c0` across the seam `sx`, trying each
/// fragment of `c1` from the last to the first; what does not join is appended.
/// Leaves `c1` empty.
pub fn merge_frags(c0: &mut Vec<Vec<[usize; 2]>>, c1: &mut Vec<Vec<[usize; 2]>>, sx: usize, vertical: bool)
    requires
        well_formed(lines(old(c0)@)),
        well_formed(lines(old(c1)@)),
    ensures
        lines(final(c0)@) == merged(lines(old(c0)@), lines(old(c1)@), sx as int, vertical),
        final(c1)@.len() == 0,
{
    let ghost l0 = lines(c0@);
    let ghost l1 = lines(c1@);
    if c0.len() == 0 {
        c0.append(c1);
        assert(lines(c0@) =~= l1);
        return;
    }
    if c1.len() == 0 {
        return;
    }
    let n: usize = c1.len();
    let mut i: usize = n;
    while i > 0
        invariant
            i <= c1@.len(),
            well_formed(lines(c0@)),
            well_formed(lines(c1@)),
            merge_pass(lines(c0@), lines(c1@), i as int, sx as int, vertical) == merge_pass(
                l0,
                l1,
                n as int,
                sx as int,
                vertical,
            ),
        decreases i,
    {
        i = i - 1;
        let ghost (s0, s1) = (lines(c0@), lines(c1@));
        proof {
            lemma_merge_one(s0, s1, i as int, sx as int, vertical, 0, 0, 0, 0);
            lemma_attempt(s0, s1, i as int, sx as int, vertical, 1, 0, 0, 0, 0);
            lemma_attempt(s0, s1, i as int, sx as int, vertical, 3, 0, 0, 0, 0);
            lemma_attempt(s0, s1, i as int, sx as int, vertical, 0, 0, 0, 0, 0);
        }
        if merge_impl(c0, c1, i, sx, vertical, 1) {
            continue;
        }
        if merge_impl(c0, c1, i, sx, vertical, 3) {
            continue;
        }
        if merge_impl(c0, c1, i, sx, vertical, 0) {
            continue;
        }
        merge_impl(c0, c1, i, sx, vertical, 2);
    }
    let ghost (f0, f1) = (lines(c0@), lines(c1@));
    c0.append(c1);
    assert(lines(c0@) =~= f0 + f1);
}

} // verus!
