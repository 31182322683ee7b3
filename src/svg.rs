//! Rendering polylines as an SVG document.
use vstd::prelude::*;
use vstd::string::*;
use crate::polyline::lines;

verus! {

/// The decimal digit `d` as text.
pub open spec fn digit_text(d: nat) -> Seq<char> {
    if d == 0 {
        "0"@
    } else if d == 1 {
        "1"@
    } else if d == 2 {
        "2"@
    } else if d == 3 {
        "3"@
    } else if d == 4 {
        "4"@
    } else if d == 5 {
        "5"@
    } else if d == 6 {
        "6"@
    } else if d == 7 {
        "7"@
    } else if d == 8 {
        "8"@
    } else {
        "9"@
    }
}

/// `n` written in decimal, without leading zeros.
pub open spec fn decimal(n: nat) -> Seq<char>
    decreases n,
{
    if n < 10 {
        digit_text(n)
    } else {
        decimal(n / 10) + digit_text(n % 10)
    }
}

/// One point of a path: `M x,y ` for the first, `L x,y ` for the others.
pub open spec fn point_text(p: [usize; 2], first: bool) -> Seq<char> {
    (if first {
        "M"@
    } else {
        "L"@
    }) + decimal(p[0] as nat) + ","@ + decimal(p[1] as nat) + " "@
}

/// The points of `f`, in order.
pub open spec fn points_text(f: Seq<[usize; 2]>) -> Seq<char>
    decreases f.len(),
{
    if f.len() == 0 {
        Seq::empty()
    } else {
        points_text(f.drop_last()) + point_text(f.last(), f.len() == 1)
    }
}

/// One `<path>` element per polyline, in order.
pub open spec fn paths_text(c: Seq<Seq<[usize; 2]>>) -> Seq<char>
    decreases c.len(),
{
    if c.len() == 0 {
        Seq::empty()
    } else {
        paths_text(c.drop_last()) + "<path d=\""@ + points_text(c.last()) + "\"/>"@
    }
}

/// The SVG document for the polylines `c` on a `w`-by-`h` canvas.
pub open spec fn svg_text(c: Seq<Seq<[usize; 2]>>, w: nat, h: nat) -> Seq<char> {
    "<svg xmlns=\"http://www.w3.org/2000/svg\" width=\""@ + decimal(w) + "\" height=\""@ + decimal(h)
        + "\" fill=\"none\" stroke=\"black\" stroke-width=\"1\">"@ + paths_text(c) + "</svg>"@
}

fn digit_str(d: usize) -> (r: &'static str)
    requires
        d < 10,
    ensures
        r@ == digit_text(d as nat),
{
    if d == 0 {
        "0"
    } else if d == 1 {
        "1"
    } else if d == 2 {
        "2"
    } else if d == 3 {
        "3"
    } else if d == 4 {
        "4"
    } else if d == 5 {
        "5"
    } else if d == 6 {
        "6"
    } else if d == 7 {
        "7"
    } else if d == 8 {
        "8"
    } else {
        "9"
    }
}

/// Appends `n` in decimal to `s`.
fn push_decimal(s: &mut String, n: usize)
    ensures
        final(s)@ == old(s)@ + decimal(n as nat),
    decreases n,
{
    if n >= 10 {
        push_decimal(s, n / 10);
    }
    s.append(digit_str(n % 10));
    proof {
        if n >= 10 {
            assert(old(s)@ + decimal((n / 10) as nat) + digit_text((n % 10) as nat) =~= old(s)@
                + decimal(n as nat));
        } else {
            assert(old(s)@ + digit_text((n % 10) as nat) =~= old(s)@ + decimal(n as nat));
        }
    }
}

/// Renders the polylines `q` as an SVG document of size `w` by `h`, with one
/// `<path>` per polyline whose data is `M x0,y0 L x1,y1 ...`.
pub fn polylines_to_svg(q: &Vec<Vec<[usize; 2]>>, w: usize, h: usize) -> (svg: String)
    ensures
        svg@ == svg_text(lines(q@), w as nat, h as nat),
{
    let mut svg: String = String::new();
    svg.append("<svg xmlns=\"http://www.w3.org/2000/svg\" width=\"");
    push_decimal(&mut svg, w);
    svg.append("\" height=\"");
    push_decimal(&mut svg, h);
    svg.append("\" fill=\"none\" stroke=\"black\" stroke-width=\"1\">");
    let ghost head = svg@;
    let mut i: usize = 0;
    while i < q.len()
        invariant
            i <= q@.len(),
            svg@ == head + paths_text(lines(q@).take(i as int)),
        decreases q@.len() - i,
    {
        let ghost before = svg@;
        svg.append("<path d=\"");
        let ghost start = svg@;
        let f: &Vec<[usize; 2]> = &q[i];
        let mut j: usize = 0;
        while j < f.len()
            invariant
                j <= f@.len(),
                svg@ == start + points_text(f@.take(j as int)),
            decreases f@.len() - j,
        {
            let ghost b = svg@;
            if j == 0 {
                svg.append("M");
            } else {
                svg.append("L");
            }
            push_decimal(&mut svg, f[j][0]);
            svg.append(",");
            push_decimal(&mut svg, f[j][1]);
            svg.append(" ");
            proof {
                let t = f@.take(j + 1);
                assert(t.drop_last() =~= f@.take(j as int));
                assert(svg@ =~= b + point_text(f@[j as int], j == 0));
            }
            j = j + 1;
        }
        svg.append("\"/>");
        proof {
            assert(f@.take(f@.len() as int) =~= f@);
            let t = lines(q@).take(i + 1);
            assert(t.drop_last() =~= lines(q@).take(i as int));
            assert(t.last() == f@);
            assert(svg@ =~= head + paths_text(t));
        }
        i = i + 1;
    }
    svg.append("</svg>");
    proof {
        assert(lines(q@).take(q@.len() as int) =~= lines(q@));
        assert(svg@ =~= svg_text(lines(q@), w as nat, h as nat));
    }
    svg
}

/// The points of `f` as `x,y ` each, then a newline.
pub open spec fn coords_text(f: Seq<[usize; 2]>) -> Seq<char>
    decreases f.len(),
{
    if f.len() == 0 {
        Seq::empty()
    } else {
        coords_text(f.drop_last()) + decimal(f.last()[0] as nat) + ","@ + decimal(f.last()[1] as nat) + " "@
    }
}

/// One line of coordinates per polyline.
pub open spec fn listing_text(c: Seq<Seq<[usize; 2]>>) -> Seq<char>
    decreases c.len(),
{
    if c.len() == 0 {
        Seq::empty()
    } else {
        listing_text(c.drop_last()) + coords_text(c.last()) + "\n"@
    }
}

/// Lists the polylines `q`, one per line, each point as `x,y ` .
pub fn polylines_to_text(q: &Vec<Vec<[usize; 2]>>) -> (text: String)
    ensures
        text@ == listing_text(lines(q@)),
{
    let mut text: String = String::new();
    let mut i: usize = 0;
    while i < q.len()
        invariant
            i <= q@.len(),
            text@ == listing_text(lines(q@).take(i as int)),
        decreases q@.len() - i,
    {
        let ghost start = text@;
        let f: &Vec<[usize; 2]> = &q[i];
        let mut j: usize = 0;
        while j < f.len()
            invariant
                j <= f@.len(),
                text@ == start + coords_text(f@.take(j as int)),
            decreases f@.len() - j,
        {
            let ghost b = text@;
            push_decimal(&mut text, f[j][0]);
            text.append(",");
            push_decimal(&mut text, f[j][1]);
            text.append(" ");
            proof {
                let t = f@.take(j + 1);
                assert(t.drop_last() =~= f@.take(j as int));
                assert(text@ =~= start + coords_text(t));
            }
            j = j + 1;
        }
        text.append("\n");
        proof {
            assert(f@.take(f@.len() as int) =~= f@);
            let t = lines(q@).take(i + 1);
            assert(t.drop_last() =~= lines(q@).take(i as int));
            assert(t.last() == f@);
            assert(text@ =~= listing_text(t));
        }
        i = i + 1;
    }
    assert(lines(q@).take(q@.len() as int) =~= lines(q@));
    text
}

} // verus!
