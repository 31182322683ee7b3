//! Zhang–Suen thinning: repeated two-pass erosion of a binary raster down to
//! strokes one pixel wide.
use vstd::prelude::*;
use crate::raster::{at, cleared_from, get, is_binary, lemma_ones_cleared, ones};

verus! {

/// `1` when the neighbour pair `(a, b)` is a background-to-foreground transition.
pub open spec fn rise(a: u8, b: u8) -> int {
    if a == 0 && b == 1 {
        1
    } else {
        0
    }
}

/// The Zhang–Suen deletion rule on the eight neighbours `p2..p9`, read
/// clockwise from north, for sub-iteration `iter`.
pub open spec fn zs_rule(p2: u8, p3: u8, p4: u8, p5: u8, p6: u8, p7: u8, p8: u8, p9: u8, iter: int) -> bool {
    let a = rise(p2, p3) + rise(p3, p4) + rise(p4, p5) + rise(p5, p6) + rise(p6, p7) + rise(p7, p8)
        + rise(p8, p9) + rise(p9, p2);
    let b = p2 + p3 + p4 + p5 + p6 + p7 + p8 + p9;
    &&& a == 1
    &&& 2 <= b <= 6
    &&& if iter == 0 {
        !(p2 == 1 && p4 == 1 && p6 == 1) && !(p4 == 1 && p6 == 1 && p8 == 1)
    } else {
        !(p2 == 1 && p4 == 1 && p8 == 1) && !(p2 == 1 && p6 == 1 && p8 == 1)
    }
}

/// Whether the sub-iteration `iter` marks the pixel at `(x, y)` for deletion.
/// Only interior pixels are ever marked; `iter == 0` is the first sub-iteration,
/// any other value the second.
pub open spec fn zs_marked(im: Seq<u8>, w: int, h: int, iter: int, x: int, y: int) -> bool {
    &&& 1 <= x <= w - 2
    &&& 1 <= y <= h - 2
    &&& zs_rule(
        at(im, w, x, y - 1),
        at(im, w, x + 1, y - 1),
        at(im, w, x + 1, y),
        at(im, w, x + 1, y + 1),
        at(im, w, x, y + 1),
        at(im, w, x - 1, y + 1),
        at(im, w, x - 1, y),
        at(im, w, x - 1, y - 1),
        iter,
    )
}

/// The raster after one sub-iteration: every marked pixel cleared, the rest kept.
pub open spec fn zs_step(im: Seq<u8>, w: int, h: int, iter: int) -> Seq<u8> {
    Seq::new(
        im.len(),
        |k: int|
            if zs_marked(im, w, h, iter, k % w, k / w) {
                0u8
            } else {
                im[k]
            },
    )
}

/// The raster after `n` rounds, each the first sub-iteration then the second.
pub open spec fn zs_rounds(im: Seq<u8>, w: int, h: int, n: nat) -> Seq<u8>
    decreases n,
{
    if n == 0 {
        im
    } else {
        let p = zs_rounds(im, w, h, (n - 1) as nat);
        zs_step(zs_step(p, w, h, 0), w, h, 1)
    }
}

/// A raster left unchanged by both sub-iterations: thinning is done.
pub open spec fn zs_fixed(im: Seq<u8>, w: int, h: int) -> bool {
    zs_step(im, w, h, 0) == im && zs_step(im, w, h, 1) == im
}

/// A sub-iteration only clears pixels, so it keeps a raster binary.
pub proof fn lemma_step_clears(im: Seq<u8>, w: int, h: int, iter: int)
    requires
        is_binary(im),
    ensures
        cleared_from(zs_step(im, w, h, iter), im),
        is_binary(zs_step(im, w, h, iter)),
        ones(zs_step(im, w, h, iter)) <= ones(im),
        zs_step(im, w, h, iter) != im ==> ones(zs_step(im, w, h, iter)) < ones(im),
{
    let s = zs_step(im, w, h, iter);
    assert(cleared_from(s, im));
    lemma_ones_cleared(s, im);
}

/// Number of foreground neighbours of the pixel at `(x, y)`.
pub open spec fn neighbours(im: Seq<u8>, w: int, x: int, y: int) -> int {
    at(im, w, x, y - 1) + at(im, w, x + 1, y - 1) + at(im, w, x + 1, y) + at(im, w, x + 1, y + 1)
        + at(im, w, x, y + 1) + at(im, w, x - 1, y + 1) + at(im, w, x - 1, y) + at(im, w, x - 1, y - 1)
}

/// A sub-iteration never clears a pixel with fewer than two foreground
/// neighbours: the ends of strokes and isolated pixels survive it.
pub proof fn lemma_step_keeps_ends(im: Seq<u8>, w: int, h: int, iter: int, x: int, y: int)
    requires
        0 <= x < w,
        0 <= y < h,
        im.len() == w * h,
        neighbours(im, w, x, y) < 2,
    ensures
        zs_step(im, w, h, iter)[y * w + x] == im[y * w + x],
{
    assert(0 <= y * w + x < w * h) by (nonlinear_arith)
        requires
            0 <= x < w,
            0 <= y < h,
    ;
    let k = y * w + x;
    assert(k % w == x && k / w == y) by (nonlinear_arith)
        requires
            k == y * w + x,
            0 <= x < w,
            0 <= y,
    ;
}

/// Evaluates the deletion rule on eight binary neighbours.
fn zs_rule_at(p2: u8, p3: u8, p4: u8, p5: u8, p6: u8, p7: u8, p8: u8, p9: u8, iter: i32) -> (r: bool)
    requires
        p2 <= 1 && p3 <= 1 && p4 <= 1 && p5 <= 1 && p6 <= 1 && p7 <= 1 && p8 <= 1 && p9 <= 1,
    ensures
        r == zs_rule(p2, p3, p4, p5, p6, p7, p8, p9, iter as int),
{
    let a: u8 = (p2 == 0 && p3 == 1) as u8 + (p3 == 0 && p4 == 1) as u8 + (p4 == 0 && p5 == 1) as u8
        + (p5 == 0 && p6 == 1) as u8 + (p6 == 0 && p7 == 1) as u8 + (p7 == 0 && p8 == 1) as u8 + (
    p8 == 0 && p9 == 1) as u8 + (p9 == 0 && p2 == 1) as u8;
    let b: u8 = p2 + p3 + p4 + p5 + p6 + p7 + p8 + p9;
    let m: bool = if iter == 0 {
        !(p2 == 1 && p4 == 1 && p6 == 1) && !(p4 == 1 && p6 == 1 && p8 == 1)
    } else {
        !(p2 == 1 && p4 == 1 && p8 == 1) && !(p2 == 1 && p6 == 1 && p8 == 1)
    };
    a == 1 && 2 <= b && b <= 6 && m
}

/// Evaluates the deletion rule of sub-iteration `iter` at `(x, y)`.
fn zs_mark_at(im: &Vec<u8>, w: usize, h: usize, iter: i32, x: usize, y: usize) -> (marked: bool)
    requires
        im@.len() == w * h,
        is_binary(im@),
        x < w,
        y < h,
    ensures
        marked == zs_marked(im@, w as int, h as int, iter as int, x as int, y as int),
{
    let mut marked: bool = false;
    if 1 <= x && x + 1 < w && 1 <= y && y + 1 < h {
        let p2: u8 = get(im, w, h, x, y - 1);
        let p3: u8 = get(im, w, h, x + 1, y - 1);
        let p4: u8 = get(im, w, h, x + 1, y);
        let p5: u8 = get(im, w, h, x + 1, y + 1);
        let p6: u8 = get(im, w, h, x, y + 1);
        let p7: u8 = get(im, w, h, x - 1, y + 1);
        let p8: u8 = get(im, w, h, x - 1, y);
        let p9: u8 = get(im, w, h, x - 1, y - 1);
        marked = zs_rule_at(p2, p3, p4, p5, p6, p7, p8, p9, iter);
    }
    marked
}

/// One Zhang–Suen sub-iteration in place. Returns whether any pixel changed.
fn thinning_zs_iteration(im: &mut Vec<u8>, w: usize, h: usize, iter: i32) -> (diff: bool)
    requires
        old(im)@.len() == w * h,
        is_binary(old(im)@),
    ensures
        final(im)@ == zs_step(old(im)@, w as int, h as int, iter as int),
        diff == (final(im)@ != old(im)@),
{
    let n: usize = im.len();
    let mut next: Vec<u8> = Vec::with_capacity(n);
    let mut diff: bool = false;
    let ghost src = im@;
    let ghost target = zs_step(src, w as int, h as int, iter as int);
    let mut k: usize = 0;
    while k < n
        invariant
            n == im@.len() == w * h,
            im@ == src,
            is_binary(src),
            target == zs_step(src, w as int, h as int, iter as int),
            k <= n,
            next@.len() == k,
            forall|q: int| 0 <= q < k ==> #[trigger] next@[q] == target[q],
            diff == exists|q: int| 0 <= q < k && #[trigger] next@[q] != src[q],
        decreases n - k,
    {
        let x: usize = k % w;
        let y: usize = k / w;
        assert(y < h) by (nonlinear_arith)
            requires
                k < w * h,
                y == k / w,
                w > 0,
        ;
        assert(y * w + x == k) by (nonlinear_arith)
            requires
                x == k % w,
                y == k / w,
                w > 0,
        ;
        let cur: u8 = im[k];
        let marked: bool = zs_mark_at(im, w, h, iter, x, y);
        assert(marked == zs_marked(src, w as int, h as int, iter as int, x as int, y as int));
        let v: u8 = if marked {
            0
        } else {
            cur
        };
        let ghost prev = next@;
        let ghost had = diff;
        if v != cur {
            diff = true;
        }
        next.push(v);
        proof {
            assert(next@[k as int] == target[k as int]);
            assert(forall|q: int| 0 <= q < k ==> next@[q] == prev[q]);
            if v != cur {
                assert(next@[k as int] != src[k as int]);
            } else if had {
                let q = choose|q: int| 0 <= q < k && #[trigger] prev[q] != src[q];
                assert(next@[q] != src[q]);
            } else {
                assert forall|q: int| 0 <= q < k + 1 implies !(#[trigger] next@[q] != src[q]) by {
                    if q < k {
                        assert(prev[q] == next@[q]);
                    }
                }
            }
        }
        k = k + 1;
    }
    proof {
        assert(next@ =~= target);
        if diff {
            let q = choose|q: int| 0 <= q < n && #[trigger] next@[q] != src[q];
            assert(next@[q] != src[q]);
        } else {
            assert(next@ =~= src);
        }
    }
    *im = next;
    diff
}

/// Thins the `w`-by-`h` binary raster `im` in place: alternates the two
/// sub-iterations until a full pass of both changes nothing. The result is a
/// fixed point of both sub-iterations and keeps only pixels that were foreground.
pub fn thinning_zs(im: &mut Vec<u8>, w: usize, h: usize)
    requires
        old(im)@.len() == w * h,
        is_binary(old(im)@),
    ensures
        final(im)@.len() == old(im)@.len(),
        is_binary(final(im)@),
        zs_fixed(final(im)@, w as int, h as int),
        zs_step(zs_step(final(im)@, w as int, h as int, 0), w as int, h as int, 1) == final(im)@,
        cleared_from(final(im)@, old(im)@),
        exists|n: nat|
            final(im)@ == zs_rounds(old(im)@, w as int, h as int, n) && forall|m: nat|
                m < n ==> #[trigger] zs_rounds(old(im)@, w as int, h as int, m) != zs_rounds(
                    old(im)@,
                    w as int,
                    h as int,
                    m + 1,
                ),
{
    let ghost orig = im@;
    let ghost mut r: nat = 0;
    loop
        invariant
            im@.len() == w * h,
            is_binary(im@),
            cleared_from(im@, orig),
            im@ == zs_rounds(orig, w as int, h as int, r),
            forall|m: nat| m < r ==> #[trigger] zs_rounds(orig, w as int, h as int, m) != zs_rounds(orig, w as int, h as int, m + 1),
        ensures
            im@.len() == w * h,
            is_binary(im@),
            cleared_from(im@, orig),
            zs_fixed(im@, w as int, h as int),
            im@ == zs_rounds(orig, w as int, h as int, r),
            forall|m: nat| m < r ==> #[trigger] zs_rounds(orig, w as int, h as int, m) != zs_rounds(orig, w as int, h as int, m + 1),
        decreases ones(im@),
    {
        let ghost s0 = im@;
        proof {
            lemma_step_clears(s0, w as int, h as int, 0);
        }
        let c0 = thinning_zs_iteration(im, w, h, 0);
        let ghost s1 = im@;
        proof {
            lemma_step_clears(s1, w as int, h as int, 1);
        }
        let c1 = thinning_zs_iteration(im, w, h, 1);
        proof {
            assert(cleared_from(im@, orig)) by {
                assert forall|k: int| 0 <= k < orig.len() implies #[trigger] im@[k] == orig[k]
                    || im@[k] == 0 by {
                    assert(s1[k] == s0[k] || s1[k] == 0);
                    assert(im@[k] == s1[k] || im@[k] == 0);
                    assert(s0[k] == orig[k] || s0[k] == 0);
                }
            }
        }
        if !c0 && !c1 {
            break;
        }
        proof {
            assert(im@ == zs_rounds(orig, w as int, h as int, r + 1));
            assert(im@ != s0);
            r = r + 1;
        }
    }
    assert(im@ == zs_rounds(orig, w as int, h as int, r));
}

} // verus!
