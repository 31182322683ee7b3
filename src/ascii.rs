//! The ASCII bitmap format: `'0'` for background, `'1'` for foreground and a
//! newline after each row; every other byte is ignored.
use vstd::prelude::*;
use crate::raster::is_binary;

verus! {

pub open spec fn is_pixel(b: u8) -> bool {
    b == 48 || b == 49
}

/// The pixels of the text `t`, in order, as `0` or `1`.
pub open spec fn pixels(t: Seq<u8>) -> Seq<u8>
    decreases t.len(),
{
    if t.len() == 0 {
        Seq::empty()
    } else if is_pixel(t.last()) {
        pixels(t.drop_last()).push((t.last() - 48) as u8)
    } else {
        pixels(t.drop_last())
    }
}

/// Number of pixels after the last newline of `t`.
pub open spec fn row_tail(t: Seq<u8>) -> nat
    decreases t.len(),
{
    if t.len() == 0 {
        0
    } else if t.last() == 10 {
        0
    } else if is_pixel(t.last()) {
        row_tail(t.drop_last()) + 1
    } else {
        row_tail(t.drop_last())
    }
}

/// Number of pixels in the longest row of `t`.
pub open spec fn widest(t: Seq<u8>) -> nat
    decreases t.len(),
{
    if t.len() == 0 {
        0
    } else {
        let w = widest(t.drop_last());
        if row_tail(t) > w {
            row_tail(t)
        } else {
            w
        }
    }
}

/// Number of newlines in `t`.
pub open spec fn newlines(t: Seq<u8>) -> nat
    decreases t.len(),
{
    if t.len() == 0 {
        0
    } else {
        newlines(t.drop_last()) + (if t.last() == 10 { 1nat } else { 0nat })
    }
}

/// Number of rows of `t`: one per newline, and one more for pixels after the last.
pub open spec fn rows(t: Seq<u8>) -> nat {
    newlines(t) + (if row_tail(t) > 0 { 1nat } else { 0nat })
}

proof fn lemma_counts_bounded(t: Seq<u8>)
    ensures
        pixels(t).len() <= t.len(),
        row_tail(t) <= t.len(),
        widest(t) <= t.len(),
        newlines(t) + row_tail(t) <= t.len(),
        forall|k: int| 0 <= k < pixels(t).len() ==> #[trigger] pixels(t)[k] <= 1,
    decreases t.len(),
{
    if t.len() > 0 {
        lemma_counts_bounded(t.drop_last());
    }
}

/// Reads an ASCII bitmap: gives its pixels in order, the length of its longest
/// row and its number of rows.
pub fn parse_txt_image(txt: &Vec<u8>) -> (r: (Vec<u8>, usize, usize))
    ensures
        r.0@ == pixels(txt@),
        is_binary(r.0@),
        r.1 == widest(txt@),
        r.2 == rows(txt@),
{
    let mut im: Vec<u8> = Vec::new();
    let mut w: usize = 0;
    let mut cur: usize = 0;
    let mut nl: usize = 0;
    let mut k: usize = 0;
    while k < txt.len()
        invariant
            k <= txt@.len(),
            im@ == pixels(txt@.take(k as int)),
            w == widest(txt@.take(k as int)),
            cur == row_tail(txt@.take(k as int)),
            nl == newlines(txt@.take(k as int)),
        decreases txt@.len() - k,
    {
        let ghost t = txt@.take(k + 1);
        proof {
            assert(t.drop_last() =~= txt@.take(k as int));
            lemma_counts_bounded(t);
        }
        let b: u8 = txt[k];
        if b == 48 {
            im.push(0);
            cur = cur + 1;
        } else if b == 49 {
            im.push(1);
            cur = cur + 1;
        } else if b == 10 {
            nl = nl + 1;
            cur = 0;
        }
        if cur > w {
            w = cur;
        }
        k = k + 1;
    }
    assert(txt@.take(txt@.len() as int) =~= txt@);
    proof {
        lemma_counts_bounded(txt@);
    }
    let h: usize = if cur > 0 {
        nl + 1
    } else {
        nl
    };
    (im, w, h)
}

} // verus!
