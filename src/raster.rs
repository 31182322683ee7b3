use vstd::prelude::*;

verus! {

/// A raster whose every byte is a foreground flag: `0` or `1`.
pub open spec fn is_binary(im: Seq<u8>) -> bool {
    forall|k: int| 0 <= k < im.len() ==> #[trigger] im[k] <= 1
}

/// The byte of the `ww`-wide raster `im` at column `x`, row `y`.
pub open spec fn at(im: Seq<u8>, ww: int, x: int, y: int) -> u8 {
    im[y * ww + x]
}

/// Number of foreground bytes in `im`.
pub open spec fn ones(im: Seq<u8>) -> nat
    decreases im.len(),
{
    if im.len() == 0 {
        0
    } else {
        ones(im.drop_last()) + (if im.last() != 0 { 1nat } else { 0nat })
    }
}

/// `b` arises from `a` by clearing some bytes and keeping the others.
pub open spec fn cleared_from(b: Seq<u8>, a: Seq<u8>) -> bool {
    &&& b.len() == a.len()
    &&& forall|k: int| 0 <= k < a.len() ==> #[trigger] b[k] == a[k] || b[k] == 0
}

/// Clearing bytes never adds foreground, and clearing any foreground byte removes some.
pub proof fn lemma_ones_cleared(b: Seq<u8>, a: Seq<u8>)
    requires
        cleared_from(b, a),
    ensures
        ones(b) <= ones(a),
        b != a ==> ones(b) < ones(a),
    decreases a.len(),
{
    if a.len() > 0 {
        let (bd, ad) = (b.drop_last(), a.drop_last());
        assert(cleared_from(bd, ad)) by {
            assert forall|k: int| 0 <= k < ad.len() implies #[trigger] bd[k] == ad[k] || bd[k] == 0 by {
                assert(b[k] == a[k] || b[k] == 0);
            }
        }
        lemma_ones_cleared(bd, ad);
        assert(b.last() == a.last() || b.last() == 0);
        if b != a && bd == ad {
            assert(b =~= bd.push(b.last()));
            assert(a =~= ad.push(a.last()));
        }
    } else {
        assert(b =~= a);
    }
}

/// Byte of `im` at column `x`, row `y`.
pub fn get(im: &Vec<u8>, ww: usize, hh: usize, x: usize, y: usize) -> (r: u8)
    requires
        im@.len() == ww * hh,
        x < ww,
        y < hh,
    ensures
        y * ww + x < ww * hh,
        r == at(im@, ww as int, x as int, y as int),
{
    let n: usize = im.len();
    assert(y * ww + x < ww * hh && y * ww <= y * ww + x) by (nonlinear_arith)
        requires
            x < ww,
            y < hh,
    ;
    im[y * ww + x]
}

} // verus!
