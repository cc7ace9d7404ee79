//! Splitting labelled boxes into ring members and center candidates, and
//! ordering ring members by their angle around the frame centroid.
use vstd::prelude::*;

use crate::bbox::{center_x, center_y, lemma_mul_abs_bound, spec_min, BBox};
use crate::elements::Element;
use crate::sorting::{
    is_ordered_by, is_total_preorder, lemma_insertion_point, lemma_insertion_point_unique,
    lemma_filter_sub_multiset, lemma_sort_elements, lemma_sort_multiset, lemma_sort_ordered,
    lemma_take_sub_multiset, stable_sort,
};
use crate::SCALE;

verus! {

/// Twice the horizontal offset of the box center from the frame centroid
/// (`width / 2`); doubling keeps it an integer.
pub open spec fn offset_x(b: BBox, width: u32) -> int {
    2 * center_x(b) - width
}

pub open spec fn offset_y(b: BBox, height: u32) -> int {
    2 * center_y(b) - height
}

/// The box center lies closer to the frame centroid than
/// `radius = tolerance * min(width, height)` (tolerance in millionths).
/// With `d` the doubled offset, distance < radius is
/// `SCALE * |d| < 2 * tolerance * min(width, height)`, compared squared.
pub open spec fn is_center_candidate(b: BBox, width: u32, height: u32, tolerance: u32) -> bool {
    let ox = offset_x(b, width);
    let oy = offset_y(b, height);
    let r = 2 * tolerance * spec_min(width as int, height as int);
    SCALE * SCALE * (ox * ox + oy * oy) < r * r
}

pub open spec fn near_center(width: u32, height: u32, tolerance: u32) -> spec_fn((Element, BBox)) -> bool {
    |p: (Element, BBox)| is_center_candidate(p.1, width, height, tolerance)
}

pub open spec fn away_from_center(width: u32, height: u32, tolerance: u32) -> spec_fn((Element, BBox)) -> bool {
    |p: (Element, BBox)| !is_center_candidate(p.1, width, height, tolerance)
}

pub open spec fn ring_members(s: Seq<(Element, BBox)>, width: u32, height: u32, tolerance: u32) -> Seq<(Element, BBox)> {
    s.filter(away_from_center(width, height, tolerance))
}

pub open spec fn center_candidates(s: Seq<(Element, BBox)>, width: u32, height: u32, tolerance: u32) -> Seq<(Element, BBox)> {
    s.filter(near_center(width, height, tolerance))
}

/// The candidate with the highest confidence; the earliest one wins ties.
pub open spec fn best_candidate(s: Seq<(Element, BBox)>) -> Option<(Element, BBox)>
    decreases s.len(),
{
    if s.len() == 0 {
        None
    } else {
        match best_candidate(s.drop_last()) {
            None => Some(s.last()),
            Some(b) => if s.last().1.confidence > b.1.confidence {
                Some(s.last())
            } else {
                Some(b)
            },
        }
    }
}

/// Which part of the circle an offset points to, in the order that angles in
/// (-pi, pi] take when y grows downward: 0 for y < 0, 1 on the positive x
/// axis (and the centroid itself), 2 for y > 0, 3 on the negative x axis (pi).
pub open spec fn half_plane(x: int, y: int) -> int {
    if y < 0 {
        0
    } else if y == 0 && x >= 0 {
        1
    } else if y > 0 {
        2
    } else {
        3
    }
}

pub open spec fn cross(ax: int, ay: int, bx: int, by: int) -> int {
    ax * by - ay * bx
}

/// atan2(ay, ax) <= atan2(by, bx), decided exactly: within an open half plane
/// the angle grows from `a` to `b` exactly when the cross product is not negative.
pub open spec fn angle_le(ax: int, ay: int, bx: int, by: int) -> bool {
    half_plane(ax, ay) < half_plane(bx, by) || (half_plane(ax, ay) == half_plane(bx, by) && (
    half_plane(ax, ay) == 1 || half_plane(ax, ay) == 3 || cross(ax, ay, bx, by) >= 0))
}

pub open spec fn by_angle(width: u32, height: u32) -> spec_fn((Element, BBox), (Element, BBox)) -> bool {
    |p: (Element, BBox), q: (Element, BBox)|
        angle_le(offset_x(p.1, width), offset_y(p.1, height), offset_x(q.1, width), offset_y(q.1, height))
}

/// Ring members sorted by ascending angle (stable), cut to at most `max` entries.
pub open spec fn angular_order(s: Seq<(Element, BBox)>, width: u32, height: u32, max: usize) -> Seq<(Element, BBox)> {
    let sorted = stable_sort(s, by_angle(width, height));
    if sorted.len() <= max {
        sorted
    } else {
        sorted.take(max as int)
    }
}

proof fn lemma_cross_trans(ax: int, ay: int, bx: int, by: int, cx: int, cy: int)
    requires
        (ay > 0 && by > 0 && cy > 0) || (ay < 0 && by < 0 && cy < 0),
        cross(ax, ay, bx, by) >= 0,
        cross(bx, by, cx, cy) >= 0,
    ensures
        cross(ax, ay, cx, cy) >= 0,
{
    let ab = cross(ax, ay, bx, by);
    let bc = cross(bx, by, cx, cy);
    let ac = cross(ax, ay, cx, cy);
    assert(ac * by == bc * ay + ab * cy) by (nonlinear_arith)
        requires
            ab == ax * by - ay * bx,
            bc == bx * cy - by * cx,
            ac == ax * cy - ay * cx,
    ;
    if ay > 0 {
        assert(bc * ay + ab * cy >= 0) by (nonlinear_arith)
            requires
                bc >= 0,
                ab >= 0,
                ay > 0,
                cy > 0,
        ;
        assert(ac >= 0) by (nonlinear_arith)
            requires
                ac * by >= 0,
                by > 0,
        ;
    } else {
        assert(bc * ay + ab * cy <= 0) by (nonlinear_arith)
            requires
                bc >= 0,
                ab >= 0,
                ay < 0,
                cy < 0,
        ;
        assert(ac >= 0) by (nonlinear_arith)
            requires
                ac * by <= 0,
                by < 0,
        ;
    }
}

/// The angle comparison is a total preorder, so sorting by it yields
/// non-decreasing angles.
pub proof fn lemma_by_angle_total(width: u32, height: u32)
    ensures
        is_total_preorder(by_angle(width, height)),
{
    let le = by_angle(width, height);
    assert forall|a: (Element, BBox), b: (Element, BBox)| #[trigger] le(a, b) || le(b, a) by {
        let (ax, ay) = (offset_x(a.1, width), offset_y(a.1, height));
        let (bx, by) = (offset_x(b.1, width), offset_y(b.1, height));
        assert(cross(bx, by, ax, ay) == -cross(ax, ay, bx, by)) by (nonlinear_arith);
    }
    assert forall|a: (Element, BBox), b: (Element, BBox), c: (Element, BBox)|
        #[trigger] le(a, b) && #[trigger] le(b, c) implies le(a, c) by {
        let (ax, ay) = (offset_x(a.1, width), offset_y(a.1, height));
        let (bx, by) = (offset_x(b.1, width), offset_y(b.1, height));
        let (cx, cy) = (offset_x(c.1, width), offset_y(c.1, height));
        if half_plane(ax, ay) == half_plane(bx, by) && half_plane(bx, by) == half_plane(cx, cy) && (
        half_plane(ax, ay) == 0 || half_plane(ax, ay) == 2) {
            lemma_cross_trans(ax, ay, bx, by, cx, cy);
        }
    }
}

/// Classification law: every pair is either a ring member or a center
/// candidate, so the two counts add up to the input size; a center is chosen
/// exactly when there is a candidate, it is one of the candidates (the others
/// are dropped) and no candidate has a higher confidence.
pub proof fn lemma_classifier_partition(s: Seq<(Element, BBox)>, width: u32, height: u32, tolerance: u32)
    ensures
        ring_members(s, width, height, tolerance).len() + center_candidates(s, width, height, tolerance).len()
            == s.len(),
        best_candidate(center_candidates(s, width, height, tolerance)) is Some <==> center_candidates(
            s,
            width,
            height,
            tolerance,
        ).len() > 0,
        best_candidate(center_candidates(s, width, height, tolerance)) matches Some(c) ==> {
            &&& center_candidates(s, width, height, tolerance).contains(c)
            &&& forall|i: int|
                0 <= i < center_candidates(s, width, height, tolerance).len() ==> c.1.confidence
                    >= #[trigger] center_candidates(s, width, height, tolerance)[i].1.confidence
        },
    decreases s.len(),
{
    reveal(Seq::filter);
    if s.len() > 0 {
        lemma_classifier_partition(s.drop_last(), width, height, tolerance);
    }
    lemma_best_candidate(center_candidates(s, width, height, tolerance));
}

proof fn lemma_best_candidate(s: Seq<(Element, BBox)>)
    ensures
        best_candidate(s) is Some <==> s.len() > 0,
        best_candidate(s) matches Some(c) ==> {
            &&& s.contains(c)
            &&& forall|i: int| 0 <= i < s.len() ==> c.1.confidence >= #[trigger] s[i].1.confidence
        },
    decreases s.len(),
{
    if s.len() > 0 {
        let d = s.drop_last();
        lemma_best_candidate(d);
        let c = best_candidate(s)->Some_0;
        if best_candidate(d) is Some {
            let b = best_candidate(d)->Some_0;
            let k = choose|k: int| 0 <= k < d.len() && d[k] == b;
            assert(s[k] == b);
        }
        assert(s[s.len() - 1] == s.last());
        assert forall|i: int| 0 <= i < s.len() implies c.1.confidence >= #[trigger] s[i].1.confidence by {
            if i < s.len() - 1 {
                assert(s[i] == d[i]);
            }
        }
    }
}

/// Ordering law: angles along the ordered ring are non-decreasing, and it
/// holds `min(max, n)` of the input pairs. (`order_by_angle` returns exactly
/// `angular_order` of its inputs, so two runs on the same input agree.)
pub proof fn lemma_angular_order(s: Seq<(Element, BBox)>, width: u32, height: u32, max: usize)
    ensures
        is_ordered_by(angular_order(s, width, height, max), by_angle(width, height)),
        angular_order(s, width, height, max).len() == if s.len() <= max { s.len() } else { max as nat },
        forall|y: (Element, BBox)| #[trigger] angular_order(s, width, height, max).contains(y) ==> s.contains(y),
{
    let le = by_angle(width, height);
    lemma_by_angle_total(width, height);
    lemma_sort_ordered(s, le);
    lemma_sort_elements(s, le);
    let sorted = stable_sort(s, le);
    let r = angular_order(s, width, height, max);
    assert forall|i: int, j: int| 0 <= i < j < r.len() implies #[trigger] le(r[i], r[j]) by {
        assert(le(sorted[i], sorted[j]));
    }
    assert forall|y: (Element, BBox)| #[trigger] r.contains(y) implies s.contains(y) by {
        let k = choose|k: int| 0 <= k < r.len() && r[k] == y;
        assert(sorted[k] == y);
        assert(sorted.contains(y));
    }
}

/// Ring law: the ordered ring is a sub-multiset of the pairs far from the
/// centroid, which in turn are a sub-multiset of the input; no center
/// candidate ever lands in the ring.
pub proof fn lemma_ring_from_non_candidates(
    s: Seq<(Element, BBox)>,
    width: u32,
    height: u32,
    tolerance: u32,
    max: usize,
)
    ensures
        angular_order(ring_members(s, width, height, tolerance), width, height, max).to_multiset().subset_of(
            ring_members(s, width, height, tolerance).to_multiset(),
        ),
        ring_members(s, width, height, tolerance).to_multiset().subset_of(s.to_multiset()),
        forall|k: int|
            0 <= k < angular_order(ring_members(s, width, height, tolerance), width, height, max).len()
                ==> !is_center_candidate(
                (#[trigger] angular_order(ring_members(s, width, height, tolerance), width, height, max)[k]).1,
                width,
                height,
                tolerance,
            ),
{
    let m = ring_members(s, width, height, tolerance);
    let le = by_angle(width, height);
    let sorted = stable_sort(m, le);
    let r = angular_order(m, width, height, max);
    lemma_sort_multiset(m, le);
    lemma_filter_sub_multiset(s, away_from_center(width, height, tolerance));
    if sorted.len() > max {
        lemma_take_sub_multiset(sorted, max as int);
    }
    lemma_angular_order(m, width, height, max);
    assert forall|k: int| 0 <= k < r.len() implies !is_center_candidate((#[trigger] r[k]).1, width, height, tolerance) by {
        assert(r.contains(r[k]));
        let j = choose|j: int| 0 <= j < m.len() && m[j] == r[k];
        s.lemma_filter_pred(away_from_center(width, height, tolerance), j);
    }
}

fn offsets(b: &BBox, width: u32, height: u32) -> (r: (i64, i64))
    ensures
        r.0 == offset_x(*b, width),
        r.1 == offset_y(*b, height),
        -0x4_0000_0000 <= r.0 <= 0x4_0000_0000,
        -0x4_0000_0000 <= r.1 <= 0x4_0000_0000,
{
    let (cx, cy) = b.center();
    (2 * cx - width as i64, 2 * cy - height as i64)
}

/// Whether the box is a center candidate (see `is_center_candidate`).
pub fn is_near_center(b: &BBox, width: u32, height: u32, tolerance: u32) -> (r: bool)
    requires
        tolerance <= SCALE,
    ensures
        r == is_center_candidate(*b, width, height, tolerance),
{
    let (ox, oy) = offsets(b, width, height);
    let ox = ox as i128;
    let oy = oy as i128;
    proof {
        lemma_mul_abs_bound(ox as int, ox as int, 0x4_0000_0000, 0x4_0000_0000);
        lemma_mul_abs_bound(oy as int, oy as int, 0x4_0000_0000, 0x4_0000_0000);
    }
    let d = ox * ox + oy * oy;
    proof {
        lemma_mul_abs_bound(d as int, (SCALE * SCALE) as int, 0x40_0000_0000_0000_0000int, 0x100_0000_0000int);
    }
    let lhs = d * ((SCALE as i128) * (SCALE as i128));
    let m: i128 = if width <= height { width as i128 } else { height as i128 };
    proof {
        lemma_mul_abs_bound(tolerance as int, m as int, SCALE as int, 0x1_0000_0000);
    }
    let tm = (tolerance as i128) * m;
    let rad = 2 * tm;
    proof {
        lemma_mul_abs_bound(rad as int, rad as int, 0x20_0000_0000_0000, 0x20_0000_0000_0000);
    }
    proof {
        let (gx, gy, gd, gl) = (ox as int, oy as int, d as int, lhs as int);
        let sc = SCALE as int;
        assert(gl == sc * sc * (gx * gx + gy * gy)) by (nonlinear_arith)
            requires
                gd == gx * gx + gy * gy,
                gl == gd * (sc * sc),
        ;
        let (gt, gm, gr) = (tolerance as int, m as int, rad as int);
        assert(gr == 2 * gt * gm) by (nonlinear_arith)
            requires
                gr == 2 * (gt * gm),
        ;
    }
    lhs < rad * rad
}

fn half_plane_exec(x: i64, y: i64) -> (r: u8)
    ensures
        r == half_plane(x as int, y as int),
{
    if y < 0 {
        0
    } else if y == 0 && x >= 0 {
        1
    } else if y > 0 {
        2
    } else {
        3
    }
}

/// Whether `a`'s angle around the frame centroid is at most `b`'s.
pub fn angle_not_after(a: &BBox, b: &BBox, width: u32, height: u32) -> (r: bool)
    ensures
        r == angle_le(offset_x(*a, width), offset_y(*a, height), offset_x(*b, width), offset_y(*b, height)),
{
    let (ax, ay) = offsets(a, width, height);
    let (bx, by) = offsets(b, width, height);
    let ha = half_plane_exec(ax, ay);
    let hb = half_plane_exec(bx, by);
    if ha != hb {
        return ha < hb;
    }
    if ha == 1 || ha == 3 {
        return true;
    }
    proof {
        lemma_mul_abs_bound(ax as int, by as int, 0x4_0000_0000, 0x4_0000_0000);
        lemma_mul_abs_bound(ay as int, bx as int, 0x4_0000_0000, 0x4_0000_0000);
    }
    (ax as i128) * (by as i128) - (ay as i128) * (bx as i128) >= 0
}

/// Splits pairs into ring members and center candidates, each in input order.
pub fn partition_by_center(pairs: Vec<(Element, BBox)>, width: u32, height: u32, tolerance: u32) -> (r: (
    Vec<(Element, BBox)>,
    Vec<(Element, BBox)>,
))
    requires
        tolerance <= SCALE,
    ensures
        r.0@ == ring_members(pairs@, width, height, tolerance),
        r.1@ == center_candidates(pairs@, width, height, tolerance),
{
    let ghost s = pairs@;
    let mut ring: Vec<(Element, BBox)> = Vec::new();
    let mut center: Vec<(Element, BBox)> = Vec::new();
    for p in iter: pairs.into_iter()
        invariant
            iter.seq() == s,
            tolerance <= SCALE,
            ring@ == ring_members(s.take(iter.index() as int), width, height, tolerance),
            center@ == center_candidates(s.take(iter.index() as int), width, height, tolerance),
    {
        proof {
            let n = iter.index() as int;
            assert(s.take(n + 1) =~= s.take(n).push(p));
            s.take(n).lemma_filter_push(p, away_from_center(width, height, tolerance));
            s.take(n).lemma_filter_push(p, near_center(width, height, tolerance));
        }
        if is_near_center(&p.1, width, height, tolerance) {
            center.push(p);
        } else {
            ring.push(p);
        }
    }
    assert(s.take(s.len() as int) =~= s);
    (ring, center)
}

/// The candidate with the highest confidence; the earliest wins ties.
pub fn select_center(candidates: Vec<(Element, BBox)>) -> (r: Option<(Element, BBox)>)
    ensures
        r == best_candidate(candidates@),
{
    let ghost s = candidates@;
    let mut best: Option<(Element, BBox)> = None;
    for p in iter: candidates.into_iter()
        invariant
            iter.seq() == s,
            best == best_candidate(s.take(iter.index() as int)),
    {
        proof {
            let n = iter.index() as int;
            assert(s.take(n + 1).drop_last() =~= s.take(n));
            assert(s.take(n + 1).last() == p);
        }
        let better = match &best {
            None => true,
            Some(b) => p.1.confidence > b.1.confidence,
        };
        if better {
            best = Some(p);
        }
    }
    assert(s.take(s.len() as int) =~= s);
    best
}

fn sort_by_angle(v: Vec<(Element, BBox)>, width: u32, height: u32) -> (r: Vec<(Element, BBox)>)
    ensures
        r@ == stable_sort(v@, by_angle(width, height)),
{
    let ghost s = v@;
    let ghost le = by_angle(width, height);
    let mut out: Vec<(Element, BBox)> = Vec::new();
    for p in iter: v.into_iter()
        invariant
            iter.seq() == s,
            le == by_angle(width, height),
            out@ == stable_sort(s.take(iter.index() as int), le),
    {
        let ghost prev = out@;
        let ghost n = iter.index() as int;
        proof {
            assert(s.take(n + 1).drop_last() =~= s.take(n));
            assert(s.take(n + 1).last() == p);
        }
        let mut i: usize = 0;
        while i < out.len() && angle_not_after(&out[i].1, &p.1, width, height)
            invariant
                out@ == prev,
                le == by_angle(width, height),
                i <= prev.len(),
                forall|j: int| 0 <= j < i ==> le(prev[j], p),
            decreases prev.len() - i,
        {
            i = i + 1;
        }
        proof {
            lemma_insertion_point_unique(p, prev, le, i as int);
            lemma_insertion_point(p, prev, le);
        }
        out.insert(i, p);
    }
    assert(s.take(s.len() as int) =~= s);
    out
}

/// Ring members by ascending angle around the frame centroid (stable), at
/// most `max_ring_elements` of them.
pub fn order_by_angle(ring: Vec<(Element, BBox)>, width: u32, height: u32, max_ring_elements: usize) -> (r: Vec<
    (Element, BBox),
>)
    ensures
        r@ == angular_order(ring@, width, height, max_ring_elements),
{
    let mut sorted = sort_by_angle(ring, width, height);
    sorted.truncate(max_ring_elements);
    sorted
}

} // verus!
