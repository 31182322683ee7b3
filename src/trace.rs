//! Divide-and-conquer extraction of polylines from a thinned raster.
use vstd::prelude::*;
use crate::merge::{dist, lemma_merge_conserves, merge_frags, merged};
use crate::polyline::{lemma_within_update, lemma_within_widen, line_within, lines, well_formed, within};
use crate::raster::{at, get, is_binary};

verus! {

/// The `ww`-by-`hh` binary raster `im` holds the chunk `(x, y, w, h)`, and its
/// sides are short enough that a walk round any chunk counts within `usize`.
pub open spec fn chunk_ok(im: Seq<u8>, ww: int, hh: int, x: int, y: int, w: int, h: int) -> bool {
    &&& im.len() == ww * hh
    &&& ww + hh <= usize::MAX / 4
    &&& is_binary(im)
    &&& 0 <= x && 1 <= w && x + w <= ww
    &&& 0 <= y && 1 <= h && y + h <= hh
}

/// Some pixel of the rectangle `(x, y, w, h)` is foreground.
pub open spec fn has_foreground(im: Seq<u8>, ww: int, x: int, y: int, w: int, h: int) -> bool {
    exists|i: int, j: int| y <= i < y + h && x <= j < x + w && #[trigger] at(im, ww, j, i) != 0
}

/// Whether the rectangle `(x, y, w, h)` holds any foreground pixel.
fn not_empty(im: &Vec<u8>, ww: usize, hh: usize, x: usize, y: usize, w: usize, h: usize) -> (r: bool)
    requires
        chunk_ok(im@, ww as int, hh as int, x as int, y as int, w as int, h as int),
    ensures
        r == has_foreground(im@, ww as int, x as int, y as int, w as int, h as int),
{
    let mut i: usize = y;
    while i < y + h
        invariant
            chunk_ok(im@, ww as int, hh as int, x as int, y as int, w as int, h as int),
            y <= i <= y + h,
            forall|a: int, b: int| y <= a < i && x <= b < x + w ==> #[trigger] at(im@, ww as int, b, a) == 0,
        decreases y + h - i,
    {
        let mut j: usize = x;
        while j < x + w
            invariant
                chunk_ok(im@, ww as int, hh as int, x as int, y as int, w as int, h as int),
                y <= i < y + h,
                x <= j <= x + w,
                forall|a: int, b: int| y <= a < i && x <= b < x + w ==> #[trigger] at(im@, ww as int, b, a) == 0,
                forall|b: int| x <= b < j ==> #[trigger] at(im@, ww as int, b, i as int) == 0,
            decreases x + w - j,
        {
            if get(im, ww, hh, j, i) != 0 {
                return true;
            }
            j = j + 1;
        }
        i = i + 1;
    }
    false
}

/// The pixel `(column, row)` visited at step `k` of the walk round the border
/// of the chunk `(x, y, w, h)`: along the top row, down the right column, back
/// along the bottom row and up the left column.
pub open spec fn perim(x: int, y: int, w: int, h: int, k: int) -> (int, int) {
    if k < w {
        (x + k, y)
    } else if k < w + h - 1 {
        (x + w - 1, y + (k - w) + 1)
    } else if k < w + w + h - 2 {
        (x + (w + w + h - 3 - k), y + h - 1)
    } else {
        (x, y + (w + w + h + h - 4 - k))
    }
}

/// The centre of the chunk `(x, y, w, h)`.
pub open spec fn centre(x: int, y: int, w: int, h: int) -> [usize; 2] {
    [(x + w / 2) as usize, (y + h / 2) as usize]
}

/// The fragments, the foreground flag of the last pixel and that pixel, after
/// `k` steps of the border walk. A fragment starts at each foreground pixel
/// that follows a background one and runs to the chunk's centre; at the next
/// background pixel its start moves to the midpoint of the run.
pub open spec fn walk(im: Seq<u8>, ww: int, x: int, y: int, w: int, h: int, k: nat) -> (Seq<Seq<[usize; 2]>>, bool, int, int)
    decreases k,
{
    if k == 0 {
        (Seq::empty(), false, x, y)
    } else {
        let prev = walk(im, ww, x, y, w, h, (k - 1) as nat);
        let (f, on, lj, li) = prev;
        let (j, i) = perim(x, y, w, h, k - 1);
        let c = centre(x, y, w, h);
        let fg = at(im, ww, j, i) != 0;
        let g = if fg && !on {
            f.push(seq![[j as usize, i as usize], c])
        } else if !fg && on {
            f.update(
                f.len() - 1,
                seq![[((f.last()[0][0] + lj) / 2) as usize, ((f.last()[0][1] + li) / 2) as usize], c],
            )
        } else {
            f
        };
        (g, fg, j, i)
    }
}

/// Foreground in the 3×3 neighbourhood of `(j, i)`.
pub open spec fn sum9(im: Seq<u8>, ww: int, j: int, i: int) -> int {
    at(im, ww, j - 1, i - 1) + at(im, ww, j, i - 1) + at(im, ww, j + 1, i - 1) + at(im, ww, j - 1, i)
        + at(im, ww, j, i) + at(im, ww, j + 1, i) + at(im, ww, j - 1, i + 1) + at(im, ww, j, i + 1)
        + at(im, ww, j + 1, i + 1)
}

pub open spec fn manhattan(j: int, i: int, c: [usize; 2]) -> int {
    (if j >= c[0] { j - c[0] } else { c[0] - j }) + (if i >= c[1] { i - c[1] } else { c[1] - i })
}

/// `p` is preferred to `q` as the peak: more foreground around it, or as much
/// and nearer to `c`, or as near and no later in row order.
pub open spec fn prefers(im: Seq<u8>, ww: int, c: [usize; 2], p: (int, int), q: (int, int)) -> bool {
    let (sp, sq) = (sum9(im, ww, p.0, p.1), sum9(im, ww, q.0, q.1));
    let (dp, dq) = (manhattan(p.0, p.1, c), manhattan(q.0, q.1, c));
    sq < sp || (sq == sp && (dp < dq || (dp == dq && (p.1 < q.1 || (p.1 == q.1 && p.0 <= q.0)))))
}

pub open spec fn interior(x: int, y: int, w: int, h: int, p: (int, int)) -> bool {
    x + 1 <= p.0 < x + w - 1 && y + 1 <= p.1 < y + h - 1
}

/// `p` is the interior pixel of the chunk preferred to every other.
pub open spec fn is_peak(im: Seq<u8>, ww: int, x: int, y: int, w: int, h: int, p: (int, int)) -> bool {
    &&& interior(x, y, w, h, p)
    &&& forall|q: (int, int)| interior(x, y, w, h, q) ==> #[trigger] prefers(im, ww, centre(x, y, w, h), p, q)
}

/// The fragments of a chunk that stops the recursion: those of the border walk;
/// two of them become one polyline between their starts, and with more than two
/// their ends move to the chunk's peak, where its interior holds foreground.
pub open spec fn chunk_frags(im: Seq<u8>, ww: int, x: int, y: int, w: int, h: int) -> Seq<Seq<[usize; 2]>> {
    let f = walk(im, ww, x, y, w, h, (w + w + h + h - 4) as nat).0;
    if f.len() == 2 {
        seq![seq![f[0][0], f[1][0]]]
    } else if f.len() > 2 && w >= 3 && h >= 3 && has_foreground(im, ww, x + 1, y + 1, w - 2, h - 2) {
        let p = choose|p: (int, int)| is_peak(im, ww, x, y, w, h, p);
        f.map_values(|g: Seq<[usize; 2]>| seq![g[0], [p.0 as usize, p.1 as usize]])
    } else {
        f
    }
}

/// The pixel `(column, row)` visited at step `k` of the border walk (`perim`).
fn perimeter_at(x: usize, y: usize, w: usize, h: usize, k: usize) -> (r: (usize, usize))
    requires
        1 <= w,
        1 <= h,
        x + w + y + h <= usize::MAX / 4,
        k + 4 < 2 * w + 2 * h + 1,
    ensures
        x <= r.0 < x + w,
        y <= r.1 < y + h,
        (r.0 as int, r.1 as int) == perim(x as int, y as int, w as int, h as int, k as int),
{
    if k < w {
        (x + k, y)
    } else if k < w + h - 1 {
        (x + w - 1, y + (k - w) + 1)
    } else if k < w + w + h - 2 {
        (x + (w + w + h - 3 - k), y + h - 1)
    } else {
        (x, y + (w + w + h + h - 4 - k))
    }
}

/// The interior pixel of the chunk with the most foreground in its 3×3
/// neighbourhood; ties go to the pixel nearest the centre `(cx, cy)`, then to the
/// first in row order. `None` when the chunk has no interior.
fn brightest(im: &Vec<u8>, ww: usize, hh: usize, x: usize, y: usize, w: usize, h: usize, cx: usize, cy: usize) -> (r: Option<(usize, usize)>)
    requires
        chunk_ok(im@, ww as int, hh as int, x as int, y as int, w as int, h as int),
        cx == x + w / 2,
        cy == y + h / 2,
    ensures
        r matches Some(p) ==> is_peak(im@, ww as int, x as int, y as int, w as int, h as int, (p.0 as int, p.1 as int)),
        r is None <==> (w < 3 || h < 3),
{
    let ghost c = centre(x as int, y as int, w as int, h as int);
    let mut best: Option<(usize, usize)> = None;
    let mut ms: u8 = 0;
    let mut md: usize = 0;
    let mut i: usize = y + 1;
    while i + 1 < y + h
        invariant
            chunk_ok(im@, ww as int, hh as int, x as int, y as int, w as int, h as int),
            y + 1 <= i,
            i + 1 <= y + h || i == y + 1,
            cx == x + w / 2,
            cy == y + h / 2,
            c == centre(x as int, y as int, w as int, h as int),
            best is None <==> (w < 3 || i == y + 1),
            best matches Some(b) ==> {
                &&& interior(x as int, y as int, w as int, h as int, (b.0 as int, b.1 as int))
                &&& b.1 < i
                &&& ms == sum9(im@, ww as int, b.0 as int, b.1 as int)
                &&& md == manhattan(b.0 as int, b.1 as int, c)
                &&& forall|q: (int, int)|
                    interior(x as int, y as int, w as int, h as int, q) && q.1 < i ==> #[trigger] prefers(
                        im@,
                        ww as int,
                        c,
                        (b.0 as int, b.1 as int),
                        q,
                    )
            },
        decreases y + h - i,
    {
        let mut j: usize = x + 1;
        while j + 1 < x + w
            invariant
                chunk_ok(im@, ww as int, hh as int, x as int, y as int, w as int, h as int),
                y + 1 <= i && i + 1 < y + h,
                x + 1 <= j,
                j + 1 <= x + w || j == x + 1,
                cx == x + w / 2,
                cy == y + h / 2,
                c == centre(x as int, y as int, w as int, h as int),
                best is None <==> ((w < 3 || i == y + 1) && j == x + 1),
                best matches Some(b) ==> {
                    &&& interior(x as int, y as int, w as int, h as int, (b.0 as int, b.1 as int))
                    &&& (b.1 < i || (b.1 == i && b.0 < j))
                    &&& ms == sum9(im@, ww as int, b.0 as int, b.1 as int)
                    &&& md == manhattan(b.0 as int, b.1 as int, c)
                    &&& forall|q: (int, int)|
                        interior(x as int, y as int, w as int, h as int, q) && (q.1 < i || (q.1 == i
                            && q.0 < j)) ==> #[trigger] prefers(im@, ww as int, c, (b.0 as int, b.1 as int), q)
                },
            decreases x + w - j,
        {
            let s: u8 = get(im, ww, hh, j - 1, i - 1) + get(im, ww, hh, j, i - 1) + get(im, ww, hh, j + 1, i - 1)
                + get(im, ww, hh, j - 1, i) + get(im, ww, hh, j, i) + get(im, ww, hh, j + 1, i)
                + get(im, ww, hh, j - 1, i + 1) + get(im, ww, hh, j, i + 1) + get(im, ww, hh, j + 1, i + 1);
            let d: usize = (if j >= cx { j - cx } else { cx - j }) + (if i >= cy { i - cy } else { cy - i });
            let ghost p = (j as int, i as int);
            assert(s == sum9(im@, ww as int, j as int, i as int));
            assert(d == manhattan(j as int, i as int, c));
            let ghost old_best = best;
            if best.is_none() || s > ms || (s == ms && d < md) {
                best = Some((j, i));
                ms = s;
                md = d;
                proof {
                    assert forall|q: (int, int)|
                        interior(x as int, y as int, w as int, h as int, q) && (q.1 < i || (q.1 == i
                            && q.0 < j + 1)) implies #[trigger] prefers(im@, ww as int, c, p, q) by {
                        if q != p {
                            if let Some(b) = old_best {
                                assert(prefers(im@, ww as int, c, (b.0 as int, b.1 as int), q));
                            }
                        }
                    }
                }
            } else {
                proof {
                    let b = old_best->Some_0;
                    assert(prefers(im@, ww as int, c, (b.0 as int, b.1 as int), p));
                }
            }
            j = j + 1;
        }
        i = i + 1;
    }
    best
}

/// Turns a chunk small enough to stop the recursion into fragments: one from each
/// foreground run met on the walk round its border to the chunk's centre. Two
/// fragments become one polyline between their border points; with more than
/// two, their inner ends move to the brightest interior pixel, unless no
/// interior pixel is foreground.
fn chunk_to_frags(im: &Vec<u8>, ww: usize, hh: usize, x: usize, y: usize, w: usize, h: usize) -> (frags: Vec<Vec<[usize; 2]>>)
    requires
        chunk_ok(im@, ww as int, hh as int, x as int, y as int, w as int, h as int),
    ensures
        lines(frags@) == chunk_frags(im@, ww as int, x as int, y as int, w as int, h as int),
        well_formed(lines(frags@)),
        within(lines(frags@), x as int, y as int, x + w, y + h),
{
    let mut frags: Vec<Vec<[usize; 2]>> = Vec::new();
    assert(lines(frags@) =~= Seq::empty());
    let cx: usize = x + w / 2;
    let cy: usize = y + h / 2;
    let mut on: bool = false;
    let mut li: usize = y;
    let mut lj: usize = x;
    let n: usize = w + w + h + h - 4;
    let mut k: usize = 0;
    while k < n
        invariant
            chunk_ok(im@, ww as int, hh as int, x as int, y as int, w as int, h as int),
            n == w + w + h + h - 4,
            k <= n,
            cx == x + w / 2,
            cy == y + h / 2,
            x <= lj < x + w,
            y <= li < y + h,
            on ==> frags@.len() > 0,
            forall|f: int| 0 <= f < frags@.len() ==> (#[trigger] frags@[f])@.len() == 2,
            within(lines(frags@), x as int, y as int, x + w, y + h),
            (lines(frags@), on, lj as int, li as int) == walk(im@, ww as int, x as int, y as int, w as int, h as int, k as nat),
        decreases n - k,
    {
        let ghost prev = walk(im@, ww as int, x as int, y as int, w as int, h as int, k as nat);
        let (j, i) = perimeter_at(x, y, w, h, k);
        if get(im, ww, hh, j, i) != 0 {
            if !on {
                on = true;
                let f: Vec<[usize; 2]> = vec![[j, i], [cx, cy]];
                let ghost before = lines(frags@);
                proof {
                    lemma_within_update(before, 0, f@, x as int, y as int, x + w, y + h);
                }
                frags.push(f);
                assert(lines(frags@) =~= before.push(f@));
            }
        } else {
            if on {
                let l: usize = frags.len();
                let p: [usize; 2] = frags[l - 1][0];
                let ghost before = lines(frags@);
                assert(before[l - 1][0] == p);
                assert(before[l - 1].len() == 2);
                assert(x <= p[0] < x + w && y <= p[1] < y + h);
                let f: Vec<[usize; 2]> = vec![[(p[0] + lj) / 2, (p[1] + li) / 2], [cx, cy]];
                proof {
                    lemma_within_update(before, l - 1, f@, x as int, y as int, x + w, y + h);
                }
                frags.set(l - 1, f);
                assert(lines(frags@) =~= before.update(l - 1, f@));
                on = false;
            }
        }
        li = i;
        lj = j;
        assert((lines(frags@), on, lj as int, li as int) == walk(im@, ww as int, x as int, y as int, w as int, h as int, (k + 1) as nat));
        k = k + 1;
    }
    let ghost wf = lines(frags@);
    assert(wf == walk(im@, ww as int, x as int, y as int, w as int, h as int, (w + w + h + h - 4) as nat).0);
    if frags.len() == 2 {
        assert(lines(frags@)[0][0] == frags@[0]@[0]);
        assert(lines(frags@)[1][0] == frags@[1]@[0]);
        let f: Vec<[usize; 2]> = vec![frags[0][0], frags[1][0]];
        frags = Vec::new();
        frags.push(f);
        assert(lines(frags@) =~= seq![f@]);
    } else if frags.len() > 2 {
        let peak: Option<(usize, usize)> = if w >= 3 && h >= 3 && not_empty(im, ww, hh, x + 1, y + 1, w - 2, h - 2) {
            brightest(im, ww, hh, x, y, w, h, cx, cy)
        } else {
            None
        };
        if let Some((mj, mi)) = peak {
            let ghost pk = (mj as int, mi as int);
            proof {
                let other = choose|p: (int, int)| is_peak(im@, ww as int, x as int, y as int, w as int, h as int, p);
                assert(prefers(im@, ww as int, centre(x as int, y as int, w as int, h as int), pk, other));
                assert(prefers(im@, ww as int, centre(x as int, y as int, w as int, h as int), other, pk));
            }
            let mut q: usize = 0;
            while q < frags.len()
                invariant
                    frags@.len() == wf.len(),
                    q <= frags@.len(),
                    forall|k: int| 0 <= k < q ==> #[trigger] lines(frags@)[k] == seq![wf[k][0], [mj, mi]],
                    forall|k: int| q <= k < wf.len() ==> #[trigger] lines(frags@)[k] == wf[k],
                    x + 1 <= mj < x + w - 1,
                    y + 1 <= mi < y + h - 1,
                    forall|f: int| 0 <= f < frags@.len() ==> (#[trigger] frags@[f])@.len() == 2,
                    within(lines(frags@), x as int, y as int, x + w, y + h),
                decreases frags@.len() - q,
            {
                let p: [usize; 2] = frags[q][0];
                let ghost before = lines(frags@);
                assert(before[q as int][0] == p);
                let f: Vec<[usize; 2]> = vec![p, [mj, mi]];
                proof {
                    lemma_within_update(before, q as int, f@, x as int, y as int, x + w, y + h);
                }
                frags.set(q, f);
                assert(lines(frags@) =~= before.update(q as int, f@));
                q = q + 1;
            }
            assert(lines(frags@) =~= wf.map_values(|g: Seq<[usize; 2]>| seq![g[0], [pk.0 as usize, pk.1 as usize]]));
        }
    }
    frags
}

/// Foreground in the first `n` pixels of row `i` and of row `i - 1`, from column `x` on.
pub open spec fn row_cost(im: Seq<u8>, ww: int, x: int, i: int, n: nat) -> int
    decreases n,
{
    if n == 0 {
        0
    } else {
        row_cost(im, ww, x, i, (n - 1) as nat) + at(im, ww, x + n - 1, i) + at(im, ww, x + n - 1, i - 1)
    }
}

/// Foreground in the first `n` pixels of column `j` and of column `j - 1`, from row `y` on.
pub open spec fn col_cost(im: Seq<u8>, ww: int, y: int, j: int, n: nat) -> int
    decreases n,
{
    if n == 0 {
        0
    } else {
        col_cost(im, ww, y, j, (n - 1) as nat) + at(im, ww, j, y + n - 1) + at(im, ww, j - 1, y + n - 1)
    }
}

/// A seam between rows `i - 1` and `i` cuts no foreground at the chunk's left and right edges.
pub open spec fn row_open(im: Seq<u8>, ww: int, x: int, w: int, i: int) -> bool {
    at(im, ww, x, i) == 0 && at(im, ww, x, i - 1) == 0 && at(im, ww, x + w - 1, i) == 0 && at(im, ww, x + w - 1, i - 1) == 0
}

/// A seam between columns `j - 1` and `j` cuts no foreground at the chunk's top and bottom edges.
pub open spec fn col_open(im: Seq<u8>, ww: int, y: int, h: int, j: int) -> bool {
    at(im, ww, j, y) == 0 && at(im, ww, j, y + h - 1) == 0 && at(im, ww, j - 1, y) == 0 && at(im, ww, j - 1, y + h - 1) == 0
}

/// One candidate of a seam scan: the best seam so far, its cost and its distance
/// from the middle give way to `pos` when it is open and cheaper, or as cheap and nearer.
pub open spec fn seam_step(st: (Option<int>, int, int), pos: int, open: bool, cost: int, d: int) -> (Option<int>, int, int) {
    if open && (cost < st.1 || (cost == st.1 && d < st.2)) {
        (Some(pos), cost, d)
    } else {
        st
    }
}

/// The state of the scan over the rows `y + 3 ..` after `n` rows, from the bound `ms`.
pub open spec fn row_scan(im: Seq<u8>, ww: int, x: int, y: int, w: int, h: int, ms: int, n: nat) -> (Option<int>, int, int)
    decreases n,
{
    if n == 0 {
        (None, ms, y + h / 2 + 1)
    } else {
        let i = y + 3 + n - 1;
        seam_step(row_scan(im, ww, x, y, w, h, ms, (n - 1) as nat), i, row_open(im, ww, x, w, i), row_cost(im, ww, x, i, w as nat), dist(i, y + h / 2))
    }
}

/// The state of the scan over the columns `x + 3 ..` after `n` columns, from the bound `ms`.
pub open spec fn col_scan(im: Seq<u8>, ww: int, x: int, y: int, w: int, h: int, ms: int, n: nat) -> (Option<int>, int, int)
    decreases n,
{
    if n == 0 {
        (None, ms, x + w / 2 + 1)
    } else {
        let j = x + 3 + n - 1;
        seam_step(col_scan(im, ww, x, y, w, h, ms, (n - 1) as nat), j, col_open(im, ww, y, h, j), col_cost(im, ww, y, j, h as nat), dist(j, x + w / 2))
    }
}

/// Number of seam candidates across a side of length `len`: those from 3 to `len - 4`.
pub open spec fn candidates(len: int) -> nat {
    if len > 6 {
        (len - 6) as nat
    } else {
        0
    }
}

pub open spec fn opt_int(o: Option<usize>) -> Option<int> {
    match o {
        Some(v) => Some(v as int),
        None => None,
    }
}

/// Scans the rows `y + 3 .. y + h - 3` of the chunk for the seam that crosses the
/// least foreground, counting each row together with the row above it. Rows
/// whose end pixels (or those above them) are foreground are skipped. Ties go to
/// the row nearest the chunk's middle row. Starts from the bound `ms`; gives the
/// row found, if any, and the bound reached.
fn seam_row(im: &Vec<u8>, ww: usize, hh: usize, x: usize, y: usize, w: usize, h: usize, ms: usize) -> (r: (Option<usize>, usize))
    requires
        chunk_ok(im@, ww as int, hh as int, x as int, y as int, w as int, h as int),
        ms <= ww + hh,
    ensures
        r.0 matches Some(i) ==> y + 3 <= i && i + 3 < y + h,
        r.1 <= ww + hh,
        (opt_int(r.0), r.1 as int) == ({
            let st = row_scan(im@, ww as int, x as int, y as int, w as int, h as int, ms as int, candidates(h as int));
            (st.0, st.1)
        }),
{
    let cy: usize = y + h / 2;
    let mut best: Option<usize> = None;
    let mut ms: usize = ms;
    let ghost ms0 = ms as int;
    let mut md: usize = cy + 1;
    let mut i: usize = y + 3;
    while i + 3 < y + h
        invariant
            chunk_ok(im@, ww as int, hh as int, x as int, y as int, w as int, h as int),
            cy == y + h / 2,
            y + 3 <= i <= y + h + 3,
            i + 3 >= y + h ==> i - y - 3 == candidates(h as int),
            i + 3 < y + h ==> i - y - 3 < candidates(h as int),
            best matches Some(b) ==> y + 3 <= b && b + 3 < y + h,
            ms <= ww + hh,
            md <= ww + hh + 1,
            (opt_int(best), ms as int, md as int) == row_scan(im@, ww as int, x as int, y as int, w as int, h as int, ms0, (i - y - 3) as nat),
        decreases y + h - i,
    {
        let ghost n = (i - y - 3) as nat;
        assert((i - y - 3 + 1) as nat - 1 == n);
        let open: bool = get(im, ww, hh, x, i) == 0 && get(im, ww, hh, x, i - 1) == 0 && get(im, ww, hh, x + w - 1, i) == 0
            && get(im, ww, hh, x + w - 1, i - 1) == 0;
        let mut s: usize = 0;
        let mut j: usize = x;
        while j < x + w
            invariant
                chunk_ok(im@, ww as int, hh as int, x as int, y as int, w as int, h as int),
                y + 3 <= i && i + 3 < y + h,
                x <= j <= x + w,
                s <= 2 * (j - x),
                s == row_cost(im@, ww as int, x as int, i as int, (j - x) as nat),
            decreases x + w - j,
        {
            assert((j - x + 1) as nat - 1 == (j - x) as nat);
            s = s + get(im, ww, hh, j, i) as usize + get(im, ww, hh, j, i - 1) as usize;
            j = j + 1;
        }
        let d: usize = if i >= cy {
            i - cy
        } else {
            cy - i
        };
        if open && (s < ms || (s == ms && d < md)) {
            ms = s;
            md = d;
            best = Some(i);
        }
        i = i + 1;
    }
    (best, ms)
}

/// The same scan over the columns `x + 3 .. x + w - 3`, each counted together
/// with the column to its left; ties go to the column nearest the middle column.
fn seam_col(im: &Vec<u8>, ww: usize, hh: usize, x: usize, y: usize, w: usize, h: usize, ms: usize) -> (r: Option<usize>)
    requires
        chunk_ok(im@, ww as int, hh as int, x as int, y as int, w as int, h as int),
        ms <= ww + hh,
    ensures
        r matches Some(j) ==> x + 3 <= j && j + 3 < x + w,
        opt_int(r) == col_scan(im@, ww as int, x as int, y as int, w as int, h as int, ms as int, candidates(w as int)).0,
{
    let cx: usize = x + w / 2;
    let mut best: Option<usize> = None;
    let mut ms: usize = ms;
    let ghost ms0 = ms as int;
    let mut md: usize = cx + 1;
    let mut j: usize = x + 3;
    while j + 3 < x + w
        invariant
            chunk_ok(im@, ww as int, hh as int, x as int, y as int, w as int, h as int),
            cx == x + w / 2,
            x + 3 <= j <= x + w + 3,
            j + 3 >= x + w ==> j - x - 3 == candidates(w as int),
            j + 3 < x + w ==> j - x - 3 < candidates(w as int),
            best matches Some(b) ==> x + 3 <= b && b + 3 < x + w,
            ms <= ww + hh,
            md <= ww + hh + 1,
            (opt_int(best), ms as int, md as int) == col_scan(im@, ww as int, x as int, y as int, w as int, h as int, ms0, (j - x - 3) as nat),
        decreases x + w - j,
    {
        let ghost n = (j - x - 3) as nat;
        assert((j - x - 3 + 1) as nat - 1 == n);
        let open: bool = get(im, ww, hh, j, y) == 0 && get(im, ww, hh, j, y + h - 1) == 0 && get(im, ww, hh, j - 1, y) == 0
            && get(im, ww, hh, j - 1, y + h - 1) == 0;
        let mut s: usize = 0;
        let mut i: usize = y;
        while i < y + h
            invariant
                chunk_ok(im@, ww as int, hh as int, x as int, y as int, w as int, h as int),
                x + 3 <= j && j + 3 < x + w,
                y <= i <= y + h,
                s <= 2 * (i - y),
                s == col_cost(im@, ww as int, y as int, j as int, (i - y) as nat),
            decreases y + h - i,
        {
            assert((i - y + 1) as nat - 1 == (i - y) as nat);
            s = s + get(im, ww, hh, j, i) as usize + get(im, ww, hh, j - 1, i) as usize;
            i = i + 1;
        }
        let d: usize = if j >= cx {
            j - cx
        } else {
            cx - j
        };
        if open && (s < ms || (s == ms && d < md)) {
            ms = s;
            md = d;
            best = Some(j);
        }
        j = j + 1;
    }
    best
}

/// The seam chosen for a chunk larger than `cs`: `(row, column)`, at most one of
/// them present. Rows are scanned first when the chunk is taller than `cs`; the
/// column scan, when it is wider, continues from the cost the row scan reached,
/// and a column it finds replaces the row.
pub open spec fn seam(im: Seq<u8>, ww: int, hh: int, x: int, y: int, w: int, h: int, cs: int) -> (Option<int>, Option<int>) {
    let rs = if h > cs {
        row_scan(im, ww, x, y, w, h, ww + hh, candidates(h))
    } else {
        (None, ww + hh, 0)
    };
    let col = if w > cs {
        col_scan(im, ww, x, y, w, h, rs.1, candidates(w)).0
    } else {
        None
    };
    if col is Some {
        (None, col)
    } else {
        (rs.0, None)
    }
}

/// Merges into `acc` the polylines traced in the half `(x, y, w, h)`, when it
/// holds foreground.
pub open spec fn absorb(acc: Seq<Seq<[usize; 2]>>, im: Seq<u8>, ww: int, x: int, y: int, w: int, h: int, sub: Seq<Seq<[usize; 2]>>, sx: int, vertical: bool) -> Seq<Seq<[usize; 2]>> {
    if has_foreground(im, ww, x, y, w, h) {
        merged(acc, sub, sx, vertical)
    } else {
        acc
    }
}

/// The polylines traced in the chunk `(x, y, w, h)` with `mi` levels of recursion left.
pub open spec fn traced(im: Seq<u8>, ww: int, hh: int, x: int, y: int, w: int, h: int, cs: int, mi: nat) -> Seq<Seq<[usize; 2]>>
    decreases mi,
{
    if mi == 0 {
        Seq::empty()
    } else if w <= cs && h <= cs {
        chunk_frags(im, ww, x, y, w, h)
    } else {
        match seam(im, ww, hh, x, y, w, h, cs) {
            (Some(i), _) => {
                let top = absorb(Seq::empty(), im, ww, x, y, w, i - y, traced(im, ww, hh, x, y, w, i - y, cs, (mi - 1) as nat), i, true);
                absorb(top, im, ww, x, i, w, y + h - i, traced(im, ww, hh, x, i, w, y + h - i, cs, (mi - 1) as nat), i, true)
            },
            (None, Some(j)) => {
                let left = absorb(Seq::empty(), im, ww, x, y, j - x, h, traced(im, ww, hh, x, y, j - x, h, cs, (mi - 1) as nat), j, false);
                absorb(left, im, ww, j, y, x + w - j, h, traced(im, ww, hh, j, y, x + w - j, h, cs, (mi - 1) as nat), j, false)
            },
            (None, None) => chunk_frags(im, ww, x, y, w, h),
        }
    }
}

/// Traces the thinned `ww`-by-`hh` raster `im` inside the chunk `(x, y, w, h)`
/// into polylines. A chunk no larger than `chunk_size` on both sides is turned
/// into fragments directly; a larger one is split along the best seam, each
/// half that holds foreground is traced with one level less of `max_iter`, and
/// their fragments are merged across the seam. A chunk that cannot be split is
/// turned into fragments whole. `max_iter == 0` gives no polyline.
pub fn trace_skeleton(im: &Vec<u8>, ww: usize, hh: usize, x: usize, y: usize, w: usize, h: usize, chunk_size: usize, max_iter: usize) -> (r: Vec<Vec<[usize; 2]>>)
    requires
        chunk_ok(im@, ww as int, hh as int, x as int, y as int, w as int, h as int),
    ensures
        lines(r@) == traced(im@, ww as int, hh as int, x as int, y as int, w as int, h as int, chunk_size as int, max_iter as nat),
        well_formed(lines(r@)),
        within(lines(r@), x as int, y as int, x + w, y + h),
        max_iter == 0 ==> r@.len() == 0,
    decreases max_iter,
{
    if max_iter == 0 {
        let r: Vec<Vec<[usize; 2]>> = Vec::new();
        assert(lines(r@) =~= Seq::empty());
        return r;
    }
    if w <= chunk_size && h <= chunk_size {
        return chunk_to_frags(im, ww, hh, x, y, w, h);
    }
    let ghost sm = seam(im@, ww as int, hh as int, x as int, y as int, w as int, h as int, chunk_size as int);
    let mut mi: Option<usize> = None;
    let mut ms: usize = ww + hh;
    if h > chunk_size {
        let (row, m) = seam_row(im, ww, hh, x, y, w, h, ms);
        mi = row;
        ms = m;
    }
    let mut mj: Option<usize> = None;
    if w > chunk_size {
        mj = seam_col(im, ww, hh, x, y, w, h, ms);
        if mj.is_some() {
            mi = None;
        }
    }
    assert((opt_int(mi), opt_int(mj)) == sm);
    let (l0, l1, l2, l3, r0, r1, r2, r3, sx, vertical): (usize, usize, usize, usize, usize, usize, usize, usize, usize, bool) =
        match (mi, mj) {
        (Some(i), _) => (x, y, w, i - y, x, i, w, y + h - i, i, true),
        (None, Some(j)) => (x, y, j - x, h, j, y, x + w - j, h, j, false),
        (None, None) => {
            return chunk_to_frags(im, ww, hh, x, y, w, h);
        },
    };
    let ghost m1 = (max_iter - 1) as nat;
    let mut frags: Vec<Vec<[usize; 2]>> = Vec::new();
    assert(lines(frags@) =~= Seq::empty());
    if not_empty(im, ww, hh, l0, l1, l2, l3) {
        let mut sub = trace_skeleton(im, ww, hh, l0, l1, l2, l3, chunk_size, max_iter - 1);
        proof {
            lemma_within_widen(lines(sub@), l0 as int, l1 as int, l0 + l2, l1 + l3, x as int, y as int, x + w, y + h);
            lemma_merge_conserves(lines(frags@), lines(sub@), sx as int, vertical, x as int, y as int, x + w, y + h);
        }
        merge_frags(&mut frags, &mut sub, sx, vertical);
    }
    assert(lines(frags@) == absorb(Seq::empty(), im@, ww as int, l0 as int, l1 as int, l2 as int, l3 as int, traced(im@, ww as int, hh as int, l0 as int, l1 as int, l2 as int, l3 as int, chunk_size as int, m1), sx as int, vertical));
    if not_empty(im, ww, hh, r0, r1, r2, r3) {
        let mut sub = trace_skeleton(im, ww, hh, r0, r1, r2, r3, chunk_size, max_iter - 1);
        proof {
            lemma_within_widen(lines(sub@), r0 as int, r1 as int, r0 + r2, r1 + r3, x as int, y as int, x + w, y + h);
            lemma_merge_conserves(lines(frags@), lines(sub@), sx as int, vertical, x as int, y as int, x + w, y + h);
        }
        merge_frags(&mut frags, &mut sub, sx, vertical);
    }
    frags
}

} // verus!
