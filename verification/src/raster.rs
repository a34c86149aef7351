//! Rasterization of lines: pure functions from segment endpoints to the
//! sequence of dot coordinates the segment covers.

use vstd::prelude::*;
use vstd::arithmetic::div_mod::*;
use vstd::arithmetic::mul::*;
use vstd::math::*;

verus! {

/// Absolute difference of two coordinates on one axis.
pub open spec fn axis_delta(s: u32, e: u32) -> int {
    if s <= e {
        e - s
    } else {
        s - e
    }
}

/// Number of points a digital line from `(x1, y1)` to `(x2, y2)` covers:
/// one per integer step along the dominant axis, both endpoints included.
pub open spec fn line_len(x1: u32, y1: u32, x2: u32, y2: u32) -> int {
    max(axis_delta(x1, x2), axis_delta(y1, y2)) + 1
}

/// Coordinate of step `i` on one axis, for a line whose dominant axis has
/// `r` steps: the start plus `i`-times-the-axis-delta divided by `r`,
/// moved toward the end of the axis.
pub open spec fn axis_point(s: u32, e: u32, i: int, r: int) -> int {
    if s <= e {
        s + (i * (e - s)) / r
    } else {
        s - (i * (s - e)) / r
    }
}

/// Point `i` of the digital line from `(x1, y1)` to `(x2, y2)`.
pub open spec fn line_point(x1: u32, y1: u32, x2: u32, y2: u32, i: int) -> (int, int) {
    let r = max(axis_delta(x1, x2), axis_delta(y1, y2));
    if r == 0 {
        (x1 as int, y1 as int)
    } else {
        (axis_point(x1, x2, i, r), axis_point(y1, y2, i, r))
    }
}

/// All points of the digital line from `(x1, y1)` to `(x2, y2)`, in
/// step order.
pub open spec fn line_seq(x1: u32, y1: u32, x2: u32, y2: u32) -> Seq<(u32, u32)> {
    Seq::new(
        line_len(x1, y1, x2, y2) as nat,
        |i: int|
            (
                line_point(x1, y1, x2, y2, i).0 as u32,
                line_point(x1, y1, x2, y2, i).1 as u32,
            ),
    )
}

/// The groups emitted while midpoint-stepping an ellipse from the
/// offsets `(dx, dy)` with decision value `err`, paired with the
/// horizontal offset reached when the stepping stops; `fuel` bounds
/// the recursion and is chosen large enough that it never runs out.
pub open spec fn ellipse_main(
    xm: u32,
    ym: u32,
    a2: int,
    b2: int,
    dx: int,
    dy: int,
    err: int,
    fuel: nat,
) -> (Seq<(u32, u32)>, int)
    decreases fuel,
{
    if fuel == 0 {
        (Seq::<(u32, u32)>::empty(), dx)
    } else {
        let grp = ellipse_group(xm, ym, dx as u32, dy as u32);
        let err_plus = 2 * err;
        let new_err1 = (2 * dx + 1) * b2;
        let dx1 = if err_plus < new_err1 {
            dx + 1
        } else {
            dx
        };
        let err1 = if err_plus < new_err1 {
            err + new_err1
        } else {
            err
        };
        let new_err2 = (2 * dy - 1) * a2;
        if err_plus > -new_err2 {
            if dy <= 1 {
                (grp, dx1)
            } else {
                let rest = ellipse_main(xm, ym, a2, b2, dx1, dy - 1, err1 - new_err2, (fuel - 1) as nat);
                (grp + rest.0, rest.1)
            }
        } else {
            let rest = ellipse_main(xm, ym, a2, b2, dx1, dy, err1, (fuel - 1) as nat);
            (grp + rest.0, rest.1)
        }
    }
}

/// The pairs emitted while walking the center row out from the offset
/// `dx` to the horizontal radius `a`.
pub open spec fn ellipse_tail(xm: u32, ym: u32, dx: int, a: int) -> Seq<(u32, u32)>
    decreases a - dx,
{
    if dx >= a {
        Seq::<(u32, u32)>::empty()
    } else {
        ellipse_axis_pair(xm, ym, (dx + 1) as u32) + ellipse_tail(xm, ym, dx + 1, a)
    }
}

/// Every dot the midpoint ellipse around `(xm, ym)` with radii
/// `(a, b)` emits, in emission order: with both radii zero the bare
/// center, with a zero vertical radius the center's group and the
/// center row, and otherwise the midpoint stepping followed by the
/// rest of the center row.
pub open spec fn ellipse_trace(xm: u32, ym: u32, a: u32, b: u32) -> Seq<(u32, u32)> {
    if a == 0 && b == 0 {
        seq![(xm, ym)]
    } else if b == 0 {
        ellipse_group(xm, ym, 0, 0) + ellipse_tail(xm, ym, 0, a as int)
    } else {
        let a2 = (a as int) * (a as int);
        let b2 = (b as int) * (b as int);
        let m = ellipse_main(
            xm,
            ym,
            a2,
            b2,
            0,
            b as int,
            b2 - (2 * b - 1) * a2,
            (2 * a + 2 + b) as nat,
        );
        m.0 + ellipse_tail(xm, ym, m.1, a as int)
    }
}

/// On one axis, one more step moves the coordinate by at most one,
/// toward the end, as long as the axis delta does not exceed the
/// dominant delta `r`.
proof fn lemma_axis_step_adjacent(s: u32, e: u32, i: int, r: int)
    requires
        0 <= i,
        i + 1 <= r,
        axis_delta(s, e) <= r,
    ensures
        s <= e ==> axis_point(s, e, i, r) <= axis_point(s, e, i + 1, r) <= axis_point(
            s,
            e,
            i,
            r,
        ) + 1,
        s > e ==> axis_point(s, e, i, r) - 1 <= axis_point(s, e, i + 1, r) <= axis_point(
            s,
            e,
            i,
            r,
        ),
{
    let d = axis_delta(s, e);
    lemma_mul_inequality(i, i + 1, d);
    lemma_div_is_ordered(i * d, (i + 1) * d, r);
    assert((i + 1) * d == i * d + d) by (nonlinear_arith);
    lemma_div_is_ordered((i + 1) * d, i * d + r, r);
    lemma_div_plus_one(i * d, r);
}

/// Law: consecutive points of a digital line differ by at most one on
/// each axis.
pub proof fn lemma_line_steps_adjacent(x1: u32, y1: u32, x2: u32, y2: u32, i: int)
    requires
        0 <= i,
        i + 1 < line_len(x1, y1, x2, y2),
    ensures
        ({
            let p = line_point(x1, y1, x2, y2, i);
            let q = line_point(x1, y1, x2, y2, i + 1);
            &&& -1 <= q.0 - p.0 <= 1
            &&& -1 <= q.1 - p.1 <= 1
        }),
{
    let r = max(axis_delta(x1, x2), axis_delta(y1, y2));
    lemma_axis_step_adjacent(x1, x2, i, r);
    lemma_axis_step_adjacent(y1, y2, i, r);
}

/// Whether a set of emitted points is symmetric across both center
/// axes of `(xm, ym)`: each point's mirror is present, except where
/// the mirror would need a negative coordinate and was dropped.
#[verifier::opaque]
pub open spec fn mirrors_closed(pts: Seq<(u32, u32)>, xm: u32, ym: u32) -> bool {
    &&& forall|i: int|
        0 <= i < pts.len() && (#[trigger] pts[i]).0 as int <= 2 * xm ==> exists|j: int|
            0 <= j < pts.len() && (#[trigger] pts[j]).0 as int == 2 * xm - pts[i].0 && pts[j].1
                == pts[i].1
    &&& forall|i: int|
        0 <= i < pts.len() && (#[trigger] pts[i]).1 as int <= 2 * ym ==> exists|j: int|
            0 <= j < pts.len() && (#[trigger] pts[j]).1 as int == 2 * ym - pts[i].1 && pts[j].0
                == pts[i].0
}

/// Whether every point lies within `rx` columns and `ry` rows of the
/// center `(xm, ym)`.
#[verifier::opaque]
pub open spec fn points_near(pts: Seq<(u32, u32)>, xm: u32, ym: u32, rx: int, ry: int) -> bool {
    forall|i: int|
        0 <= i < pts.len() ==> xm - rx <= (#[trigger] pts[i]).0 as int <= xm + rx && ym - ry <= pts[i].1 as int <= ym + ry
}

/// The group of up to four mirrored boundary points emitted for the
/// offsets `(dx, dy)` from the center `(xm, ym)`, in emission order; a
/// mirror whose coordinate would go negative is dropped.
pub open spec fn ellipse_group(xm: u32, ym: u32, dx: u32, dy: u32) -> Seq<(u32, u32)> {
    let se = (((xm + dx) as u32), ((ym + dy) as u32));
    let sw = (((xm - dx) as u32), ((ym + dy) as u32));
    let nw = (((xm - dx) as u32), ((ym - dy) as u32));
    let ne = (((xm + dx) as u32), ((ym - dy) as u32));
    if xm >= dx && ym >= dy {
        seq![se, sw, nw, ne]
    } else if xm >= dx {
        seq![se, sw]
    } else if ym >= dy {
        seq![se, ne]
    } else {
        seq![se]
    }
}

/// The pair of horizontally mirrored points emitted for the offset
/// `dx` on the center row, in emission order.
pub open spec fn ellipse_axis_pair(xm: u32, ym: u32, dx: u32) -> Seq<(u32, u32)> {
    let e = (((xm + dx) as u32), ym);
    let w = (((xm - dx) as u32), ym);
    if xm >= dx {
        seq![e, w]
    } else {
        seq![e]
    }
}

/// A sequence in which the mirror of element `i` stands at element
/// `w(i)` wherever the mirror condition holds is mirror-closed.
proof fn lemma_closed_by_witness(
    g: Seq<(u32, u32)>,
    xm: u32,
    ym: u32,
    wx: Seq<int>,
    wy: Seq<int>,
)
    requires
        wx.len() == g.len(),
        wy.len() == g.len(),
        forall|i: int|
            0 <= i < g.len() && (#[trigger] g[i]).0 as int <= 2 * xm ==> 0 <= wx[i] < g.len()
                && g[wx[i]].0 as int == 2 * xm - g[i].0 && g[wx[i]].1 == g[i].1,
        forall|i: int|
            0 <= i < g.len() && (#[trigger] g[i]).1 as int <= 2 * ym ==> 0 <= wy[i] < g.len()
                && g[wy[i]].1 as int == 2 * ym - g[i].1 && g[wy[i]].0 == g[i].0,
    ensures
        mirrors_closed(g, xm, ym),
{
    reveal(mirrors_closed);
    assert forall|i: int|
        0 <= i < g.len() && (#[trigger] g[i]).0 as int <= 2 * xm implies exists|j: int|
        0 <= j < g.len() && (#[trigger] g[j]).0 as int == 2 * xm - g[i].0 && g[j].1
            == g[i].1 by {
        let j = wx[i];
        assert(0 <= j < g.len() && g[j].0 as int == 2 * xm - g[i].0 && g[j].1 == g[i].1);
    }
    assert forall|i: int|
        0 <= i < g.len() && (#[trigger] g[i]).1 as int <= 2 * ym implies exists|j: int|
        0 <= j < g.len() && (#[trigger] g[j]).1 as int == 2 * ym - g[i].1 && g[j].0
            == g[i].0 by {
        let j = wy[i];
        assert(0 <= j < g.len() && g[j].1 as int == 2 * ym - g[i].1 && g[j].0 == g[i].0);
    }
}

/// One emitted group is mirror-closed on its own.
pub proof fn lemma_group_closed(xm: u32, ym: u32, dx: u32, dy: u32)
    requires
        xm + dx <= u32::MAX,
        ym + dy <= u32::MAX,
    ensures
        mirrors_closed(ellipse_group(xm, ym, dx, dy), xm, ym),
{
    let g = ellipse_group(xm, ym, dx, dy);
    let se = (((xm + dx) as u32), ((ym + dy) as u32));
    let sw = (((xm - dx) as u32), ((ym + dy) as u32));
    let nw = (((xm - dx) as u32), ((ym - dy) as u32));
    let ne = (((xm + dx) as u32), ((ym - dy) as u32));
    if xm >= dx {
        if ym >= dy {
            assert(g =~= seq![se, sw, nw, ne]);
            lemma_closed_by_witness(g, xm, ym, seq![1, 0, 3, 2], seq![3, 2, 1, 0]);
        } else {
            assert(g =~= seq![se, sw]);
            lemma_closed_by_witness(g, xm, ym, seq![1, 0], seq![0, 1]);
        }
    } else {
        if ym >= dy {
            assert(g =~= seq![se, ne]);
            lemma_closed_by_witness(g, xm, ym, seq![0, 1], seq![1, 0]);
        } else {
            assert(g =~= seq![se]);
            lemma_closed_by_witness(g, xm, ym, seq![0], seq![0]);
        }
    }
}

/// One emitted center-row pair is mirror-closed on its own.
pub proof fn lemma_axis_pair_closed(xm: u32, ym: u32, dx: u32)
    requires
        xm + dx <= u32::MAX,
    ensures
        mirrors_closed(ellipse_axis_pair(xm, ym, dx), xm, ym),
{
    let g = ellipse_axis_pair(xm, ym, dx);
    let e = (((xm + dx) as u32), ym);
    let w = (((xm - dx) as u32), ym);
    if xm >= dx {
        assert(g =~= seq![e, w]);
        lemma_closed_by_witness(g, xm, ym, seq![1, 0], seq![0, 1]);
    } else {
        assert(g =~= seq![e]);
        lemma_closed_by_witness(g, xm, ym, seq![0], seq![0]);
    }
}

/// Mirror closure joins over concatenation.
#[verifier::rlimit(50)]
pub proof fn lemma_mirrors_extend(pts: Seq<(u32, u32)>, grp: Seq<(u32, u32)>, xm: u32, ym: u32)
    requires
        mirrors_closed(pts, xm, ym),
        mirrors_closed(grp, xm, ym),
    ensures
        mirrors_closed(pts + grp, xm, ym),
{
    reveal(mirrors_closed);
    let all = pts + grp;
    assert forall|i: int|
        0 <= i < all.len() && (#[trigger] all[i]).0 as int <= 2 * xm implies exists|j: int|
        0 <= j < all.len() && (#[trigger] all[j]).0 as int == 2 * xm - all[i].0 && all[j].1
            == all[i].1 by {
        if i < pts.len() {
            assert(all[i] == pts[i]);
            assert(pts[i].0 as int <= 2 * xm);
            let j = choose|j: int|
                0 <= j < pts.len() && (#[trigger] pts[j]).0 as int == 2 * xm - pts[i].0
                    && pts[j].1 == pts[i].1;
            assert(all[j] == pts[j]);
            assert(0 <= j < all.len() && all[j].0 as int == 2 * xm - all[i].0 && all[j].1
                == all[i].1);
        } else {
            let i2 = i - pts.len();
            assert(all[i] == grp[i2]);
            assert(grp[i2].0 as int <= 2 * xm);
            let j = choose|j: int|
                0 <= j < grp.len() && (#[trigger] grp[j]).0 as int == 2 * xm - grp[i2].0
                    && grp[j].1 == grp[i2].1;
            assert(all[pts.len() + j] == grp[j]);
            assert(0 <= pts.len() + j < all.len() && all[pts.len() + j].0 as int == 2 * xm
                - all[i].0 && all[pts.len() + j].1 == all[i].1);
        }
    }
    assert forall|i: int|
        0 <= i < all.len() && (#[trigger] all[i]).1 as int <= 2 * ym implies exists|j: int|
        0 <= j < all.len() && (#[trigger] all[j]).1 as int == 2 * ym - all[i].1 && all[j].0
            == all[i].0 by {
        if i < pts.len() {
            assert(all[i] == pts[i]);
            assert(pts[i].1 as int <= 2 * ym);
            let j = choose|j: int|
                0 <= j < pts.len() && (#[trigger] pts[j]).1 as int == 2 * ym - pts[i].1
                    && pts[j].0 == pts[i].0;
            assert(all[j] == pts[j]);
            assert(0 <= j < all.len() && all[j].1 as int == 2 * ym - all[i].1 && all[j].0
                == all[i].0);
        } else {
            let i2 = i - pts.len();
            assert(all[i] == grp[i2]);
            assert(grp[i2].1 as int <= 2 * ym);
            let j = choose|j: int|
                0 <= j < grp.len() && (#[trigger] grp[j]).1 as int == 2 * ym - grp[i2].1
                    && grp[j].0 == grp[i2].0;
            assert(all[pts.len() + j] == grp[j]);
            assert(0 <= pts.len() + j < all.len() && all[pts.len() + j].1 as int == 2 * ym
                - all[i].1 && all[pts.len() + j].0 == all[i].0);
        }
    }
}

/// Nothing emitted yet is trivially symmetric and near.
pub proof fn lemma_empty_closed(xm: u32, ym: u32, rx: int, ry: int)
    ensures
        mirrors_closed(Seq::<(u32, u32)>::empty(), xm, ym),
        points_near(Seq::<(u32, u32)>::empty(), xm, ym, rx, ry),
{
    reveal(mirrors_closed);
    reveal(points_near);
}

/// The center point alone is symmetric: it is its own mirror.
pub proof fn lemma_single_closed(p: (u32, u32), xm: u32, ym: u32, rx: int, ry: int)
    requires
        p.0 == xm,
        p.1 == ym,
        0 <= rx,
        0 <= ry,
    ensures
        mirrors_closed(seq![p], xm, ym),
        points_near(seq![p], xm, ym, rx, ry),
{
    reveal(mirrors_closed);
    reveal(points_near);
    let pts = seq![p];
    assert forall|i: int|
        0 <= i < pts.len() && (#[trigger] pts[i]).0 as int <= 2 * xm implies exists|j: int|
        0 <= j < pts.len() && (#[trigger] pts[j]).0 as int == 2 * xm - pts[i].0 && pts[j].1
            == pts[i].1 by {
        assert(pts[0].0 as int == 2 * xm - pts[0].0 && pts[0].1 == pts[0].1);
    }
    assert forall|i: int|
        0 <= i < pts.len() && (#[trigger] pts[i]).1 as int <= 2 * ym implies exists|j: int|
        0 <= j < pts.len() && (#[trigger] pts[j]).1 as int == 2 * ym - pts[i].1 && pts[j].0
            == pts[i].0 by {
        assert(pts[0].1 as int == 2 * ym - pts[0].1 && pts[0].0 == pts[0].0);
    }
}

/// The first emitted group, at offsets `(0, b)`, holds the vertical
/// extremes of the ellipse.
pub proof fn lemma_group_has_poles(xm: u32, ym: u32, b: u32)
    requires
        ym + b <= u32::MAX,
    ensures
        ellipse_group(xm, ym, 0, b).contains((xm, (ym + b) as u32)),
        ym >= b ==> ellipse_group(xm, ym, 0, b).contains((xm, (ym - b) as u32)),
{
    let g = ellipse_group(xm, ym, 0, b);
    assert(g[0] == (xm, (ym + b) as u32));
    if ym >= b {
        assert(g[2] == (xm, (ym - b) as u32));
    }
}

/// A point of the appended part is present in the whole.
pub proof fn lemma_append_keeps_right(pts: Seq<(u32, u32)>, grp: Seq<(u32, u32)>, p: (u32, u32))
    requires
        grp.contains(p),
    ensures
        (pts + grp).contains(p),
{
    let i = choose|i: int| 0 <= i < grp.len() && grp[i] == p;
    assert((pts + grp)[pts.len() + i] == p);
}

/// A point stays present when more points are appended.
pub proof fn lemma_append_keeps(pts: Seq<(u32, u32)>, grp: Seq<(u32, u32)>, p: (u32, u32))
    requires
        pts.contains(p),
    ensures
        (pts + grp).contains(p),
{
    let i = choose|i: int| 0 <= i < pts.len() && pts[i] == p;
    assert((pts + grp)[i] == p);
}

/// Appending one more mirrored group keeps the emitted set symmetric,
/// near the center, and in possession of the vertical extremes.
pub proof fn lemma_extend_group(
    top: Seq<(u32, u32)>,
    xm: u32,
    ym: u32,
    dx: u32,
    dy: u32,
    rx: int,
    ry: int,
    b: u32,
)
    requires
        xm + dx <= u32::MAX,
        ym + dy <= u32::MAX,
        ym + b <= u32::MAX,
        dx <= rx,
        dy <= ry,
        mirrors_closed(top, xm, ym),
        points_near(top, xm, ym, rx, ry),
        top.len() == 0 ==> dx == 0 && dy == b,
        top.len() > 0 ==> top.contains((xm, (ym + b) as u32)) && (ym >= b ==> top.contains(
            (xm, (ym - b) as u32),
        )),
    ensures
        ({
            let all = top + ellipse_group(xm, ym, dx, dy);
            &&& mirrors_closed(all, xm, ym)
            &&& points_near(all, xm, ym, rx, ry)
            &&& all.len() > 0
            &&& all.contains((xm, (ym + b) as u32))
            &&& ym >= b ==> all.contains((xm, (ym - b) as u32))
        }),
{
    let grp = ellipse_group(xm, ym, dx, dy);
    lemma_group_closed(xm, ym, dx, dy);
    lemma_group_near(xm, ym, dx, dy, rx, ry);
    lemma_mirrors_extend(top, grp, xm, ym);
    lemma_near_extend(top, grp, xm, ym, rx, ry);
    if top.len() == 0 {
        lemma_group_has_poles(xm, ym, b);
        lemma_append_keeps_right(top, grp, (xm, (ym + b) as u32));
        if ym >= b {
            lemma_append_keeps_right(top, grp, (xm, (ym - b) as u32));
        }
    } else {
        lemma_append_keeps(top, grp, (xm, (ym + b) as u32));
        if ym >= b {
            lemma_append_keeps(top, grp, (xm, (ym - b) as u32));
        }
    }
}

/// Appending one more center-row pair keeps the emitted set symmetric,
/// near the center, and in possession of the vertical extremes.
pub proof fn lemma_extend_pair(
    top: Seq<(u32, u32)>,
    xm: u32,
    ym: u32,
    dx: u32,
    rx: int,
    ry: int,
    b: u32,
)
    requires
        xm + dx <= u32::MAX,
        dx <= rx,
        0 <= ry,
        mirrors_closed(top, xm, ym),
        points_near(top, xm, ym, rx, ry),
        top.contains((xm, (ym + b) as u32)),
        ym >= b ==> top.contains((xm, (ym - b) as u32)),
    ensures
        ({
            let all = top + ellipse_axis_pair(xm, ym, dx);
            &&& mirrors_closed(all, xm, ym)
            &&& points_near(all, xm, ym, rx, ry)
            &&& all.contains((xm, (ym + b) as u32))
            &&& ym >= b ==> all.contains((xm, (ym - b) as u32))
        }),
{
    let grp = ellipse_axis_pair(xm, ym, dx);
    lemma_axis_pair_closed(xm, ym, dx);
    lemma_pair_near(xm, ym, dx, rx, ry);
    lemma_mirrors_extend(top, grp, xm, ym);
    lemma_near_extend(top, grp, xm, ym, rx, ry);
    lemma_append_keeps(top, grp, (xm, (ym + b) as u32));
    if ym >= b {
        lemma_append_keeps(top, grp, (xm, (ym - b) as u32));
    }
}

/// The coordinate of the midpoint of a box side running from `s` to
/// `e`, in either order: the second corner plus half the signed
/// difference, the half rounded toward zero.
pub open spec fn box_center(s: u32, e: u32) -> int {
    if s >= e {
        e + (s - e) / 2
    } else {
        e - (e - s) / 2
    }
}

/// The midpoint decision value maintained while stepping an ellipse
/// with radii `(a, b)`: its closed form over the offsets `(dx, dy)`.
#[verifier::opaque]
pub open spec fn ellipse_err(a: int, b: int, dx: int, dy: int) -> int {
    b * b + b * b * dx * dx - (2 * b - 1) * (a * a) - (a * a) * (b * b - dy * dy)
}

/// The decision value starts, at offsets `(0, b)`, as `b² - (2 b - 1) a²`.
pub proof fn lemma_err_init(a: int, b: int)
    ensures
        ellipse_err(a, b, 0, b) == b * b - (2 * b - 1) * (a * a),
{
    reveal(ellipse_err);
}

/// Stepping `dx` adds `(2 dx + 1) b²` to the decision value.
pub proof fn lemma_err_step_dx(a: int, b: int, dx: int, dy: int)
    ensures
        ellipse_err(a, b, dx, dy) + (2 * dx + 1) * (b * b) == ellipse_err(a, b, dx + 1, dy),
{
    reveal(ellipse_err);
    assert(b * b * (dx + 1) * (dx + 1) == b * b * dx * dx + (2 * dx + 1) * (b * b))
        by (nonlinear_arith);
}

/// Stepping `dy` subtracts `(2 dy - 1) a²` from the decision value.
pub proof fn lemma_err_step_dy(a: int, b: int, dx: int, dy: int)
    ensures
        ellipse_err(a, b, dx, dy) - (2 * dy - 1) * (a * a) == ellipse_err(a, b, dx, dy - 1),
{
    reveal(ellipse_err);
    assert((a * a) * (b * b - (dy - 1) * (dy - 1)) == (a * a) * (b * b - dy * dy) + (2 * dy - 1)
        * (a * a)) by (nonlinear_arith);
}

/// The decision value stays far within a 128-bit range for the
/// admitted radii and offsets.
pub proof fn lemma_err_bound(a: int, b: int, dx: int, dy: int)
    requires
        0 <= a <= 0xFFFF,
        1 <= b <= 0xFFFF,
        0 <= dx <= 2 * a + 1,
        1 <= dy <= b,
    ensures
        -0x10000000000000000000 <= ellipse_err(a, b, dx, dy) <= 0x10000000000000000000,
{
    reveal(ellipse_err);
    assert(a * a <= (0xFFFF * 0xFFFF) as int && a * a >= 0) by (nonlinear_arith)
        requires 0 <= a <= 0xFFFF;
    assert(b * b <= (0xFFFF * 0xFFFF) as int && b * b >= 1) by (nonlinear_arith)
        requires 1 <= b <= 0xFFFF;
    assert(dx * dx <= (0x1FFFF * 0x1FFFF) as int && dx * dx >= 0) by (nonlinear_arith)
        requires 0 <= dx <= 0x1FFFF;
    assert(1 <= dy * dy <= b * b) by (nonlinear_arith)
        requires 1 <= dy <= b;
    lemma_mul_upper_bound(b * b, (0xFFFF * 0xFFFF) as int, dx * dx, (0x1FFFF * 0x1FFFF) as int);
    assert(b * b * dx * dx == (b * b) * (dx * dx)) by (nonlinear_arith);
    lemma_mul_upper_bound(2 * b - 1, 0x1FFFF, a * a, (0xFFFF * 0xFFFF) as int);
    lemma_mul_nonnegative(2 * b - 1, a * a);
    lemma_mul_upper_bound(a * a, (0xFFFF * 0xFFFF) as int, b * b - dy * dy, (0xFFFF * 0xFFFF) as int);
    lemma_mul_nonnegative(a * a, b * b - dy * dy);
    assert(b * b * dx * dx >= 0) by (nonlinear_arith)
        requires b * b >= 0, dx * dx >= 0, b * b * dx * dx == (b * b) * (dx * dx);
}

/// While the step condition asks for another `dx` step, `dx` has not
/// yet passed twice the horizontal radius.
pub proof fn lemma_dx_bound(a: int, b: int, dx: int, dy: int)
    requires
        0 <= a,
        1 <= b,
        1 <= dy <= b,
        0 <= dx,
        2 * ellipse_err(a, b, dx, dy) < (2 * dx + 1) * (b * b),
    ensures
        dx <= 2 * a,
{
    reveal(ellipse_err);
    assert(dx <= 2 * a) by (nonlinear_arith)
        requires
            0 <= a,
            1 <= b,
            1 <= dy <= b,
            0 <= dx,
            2 * (b * b + b * b * dx * dx - (2 * b - 1) * (a * a) - (a * a) * (b * b - dy * dy))
                < (2 * dx + 1) * (b * b);
}

/// A group of mirrored points for offsets within `(rx, ry)` stays
/// within `(rx, ry)` of the center.
pub proof fn lemma_group_near(xm: u32, ym: u32, dx: u32, dy: u32, rx: int, ry: int)
    requires
        xm + dx <= u32::MAX,
        ym + dy <= u32::MAX,
        dx <= rx,
        dy <= ry,
    ensures
        points_near(ellipse_group(xm, ym, dx, dy), xm, ym, rx, ry),
{
    reveal(points_near);
    let g = ellipse_group(xm, ym, dx, dy);
    let se = (((xm + dx) as u32), ((ym + dy) as u32));
    let sw = (((xm - dx) as u32), ((ym + dy) as u32));
    let nw = (((xm - dx) as u32), ((ym - dy) as u32));
    let ne = (((xm + dx) as u32), ((ym - dy) as u32));
    if xm >= dx {
        if ym >= dy {
            assert(g =~= seq![se, sw, nw, ne]);
        } else {
            assert(g =~= seq![se, sw]);
        }
    } else {
        if ym >= dy {
            assert(g =~= seq![se, ne]);
        } else {
            assert(g =~= seq![se]);
        }
    }
}

/// A center-row pair for an offset within `rx` stays within `(rx, ry)`
/// of the center.
pub proof fn lemma_pair_near(xm: u32, ym: u32, dx: u32, rx: int, ry: int)
    requires
        xm + dx <= u32::MAX,
        dx <= rx,
        0 <= ry,
    ensures
        points_near(ellipse_axis_pair(xm, ym, dx), xm, ym, rx, ry),
{
    reveal(points_near);
    let g = ellipse_axis_pair(xm, ym, dx);
    let e = (((xm + dx) as u32), ym);
    let w = (((xm - dx) as u32), ym);
    if xm >= dx {
        assert(g =~= seq![e, w]);
    } else {
        assert(g =~= seq![e]);
    }
}

/// Nearness joins over concatenation.
pub proof fn lemma_near_extend(
    pts: Seq<(u32, u32)>,
    grp: Seq<(u32, u32)>,
    xm: u32,
    ym: u32,
    rx: int,
    ry: int,
)
    requires
        points_near(pts, xm, ym, rx, ry),
        points_near(grp, xm, ym, rx, ry),
    ensures
        points_near(pts + grp, xm, ym, rx, ry),
{
    reveal(points_near);
    let all = pts + grp;
    assert forall|i: int|
        0 <= i < all.len() implies xm - rx <= (#[trigger] all[i]).0 as int <= xm + rx && ym - ry
        <= all[i].1 as int <= ym + ry by {
        if i < pts.len() {
            assert(all[i] == pts[i]);
        } else {
            assert(all[i] == grp[i - pts.len()]);
        }
    }
}

/// The step offset `(i * d) / r` never exceeds `d` while `i <= r`.
proof fn lemma_step_bounded(i: int, d: int, r: int)
    requires
        0 <= i <= r,
        0 <= d,
        1 <= r,
    ensures
        0 <= (i * d) / r <= d,
        i == 0 ==> (i * d) / r == 0,
        i == r ==> (i * d) / r == d,
{
    lemma_mul_inequality(i, r, d);
    lemma_div_is_ordered(i * d, r * d, r);
    lemma_div_multiples_vanish(d, r);
    assert(r * d == d * r) by (nonlinear_arith);
    lemma_div_pos_is_pos(i * d, r);
    lemma_mul_nonnegative(i, d);
}

/// The points of the digital line from `(x1, y1)` to `(x2, y2)`: exactly
/// `max(|dx|, |dy|) + 1` of them, the first equal to the start, the last
/// equal to the end.
pub fn line_points(x1: u32, y1: u32, x2: u32, y2: u32) -> (pts: Vec<(u32, u32)>)
    ensures
        pts@.len() == line_len(x1, y1, x2, y2),
        forall|i: int|
            0 <= i < pts@.len() ==> (#[trigger] pts@[i]).0 as int == line_point(
                x1,
                y1,
                x2,
                y2,
                i,
            ).0 && pts@[i].1 as int == line_point(x1, y1, x2, y2, i).1,
        pts@[0] == (x1, y1),
        pts@[line_len(x1, y1, x2, y2) - 1] == (x2, y2),
        pts@ == line_seq(x1, y1, x2, y2),
{
    let xdiff: u32 = if x1 <= x2 {
        x2 - x1
    } else {
        x1 - x2
    };
    let ydiff: u32 = if y1 <= y2 {
        y2 - y1
    } else {
        y1 - y2
    };
    let r: u32 = if xdiff >= ydiff {
        xdiff
    } else {
        ydiff
    };
    let mut pts: Vec<(u32, u32)> = Vec::new();
    let mut i: u64 = 0;
    while i <= r as u64
        invariant
            xdiff == axis_delta(x1, x2),
            ydiff == axis_delta(y1, y2),
            r == max(axis_delta(x1, x2), axis_delta(y1, y2)),
            0 <= i <= r as u64 + 1,
            pts@.len() == i,
            forall|j: int|
                0 <= j < i ==> (#[trigger] pts@[j]).0 as int == line_point(
                    x1,
                    y1,
                    x2,
                    y2,
                    j,
                ).0 && pts@[j].1 as int == line_point(x1, y1, x2, y2, j).1,
        decreases r as u64 + 1 - i,
    {
        let x: u32;
        let y: u32;
        if r == 0 {
            x = x1;
            y = y1;
        } else {
            proof {
                lemma_mul_upper_bound(i as int, u32::MAX as int, xdiff as int, u32::MAX as int);
                lemma_mul_upper_bound(i as int, u32::MAX as int, ydiff as int, u32::MAX as int);
                lemma_step_bounded(i as int, xdiff as int, r as int);
                lemma_step_bounded(i as int, ydiff as int, r as int);
            }
            let stepx: u64 = i * (xdiff as u64) / (r as u64);
            let stepy: u64 = i * (ydiff as u64) / (r as u64);
            x = if x1 <= x2 {
                x1 + stepx as u32
            } else {
                x1 - stepx as u32
            };
            y = if y1 <= y2 {
                y1 + stepy as u32
            } else {
                y1 - stepy as u32
            };
        }
        pts.push((x, y));
        i = i + 1;
    }
    proof {
        if r != 0 {
            lemma_step_bounded(0, xdiff as int, r as int);
            lemma_step_bounded(0, ydiff as int, r as int);
            lemma_step_bounded(r as int, xdiff as int, r as int);
            lemma_step_bounded(r as int, ydiff as int, r as int);
        }
        assert(pts@[0].0 as int == line_point(x1, y1, x2, y2, 0).0);
        assert(pts@[line_len(x1, y1, x2, y2) - 1].0 as int == line_point(
            x1,
            y1,
            x2,
            y2,
            line_len(x1, y1, x2, y2) - 1,
        ).0);
        assert(pts@ =~= line_seq(x1, y1, x2, y2));
    }
    pts
}

} // verus!
