//! Non-maximum suppression, global and per class.
use vstd::prelude::*;

use crate::bbox::{
    all_valid, boxes_of_class, by_confidence, has_class, iou_exceeds, lemma_by_confidence_total,
    lemma_iou_exceeds_symmetric, sorted_by_confidence, BBox, BBoxCollection,
};
use crate::SCALE;
use crate::sorting::{
    is_ordered_by, lemma_filter_ordered, lemma_sort_elements, lemma_sort_of_ordered,
    lemma_sort_ordered,
};

verus! {

/// Boxes that do not overlap `b` above the threshold.
pub open spec fn clear_of(b: BBox, threshold: u32) -> spec_fn(BBox) -> bool {
    |c: BBox| !iou_exceeds(b, c, threshold)
}

pub open spec fn not_of_class(c: Seq<char>) -> spec_fn(BBox) -> bool {
    |b: BBox| b.class_id@ != c
}

/// The greedy sweep over boxes in the order given: the first box is kept and
/// every later box overlapping it above the threshold is suppressed; then the
/// same on what is left.
pub open spec fn greedy_keep(s: Seq<BBox>, threshold: u32) -> Seq<BBox>
    decreases s.len(),
    via greedy_keep_decreases
{
    if s.len() == 0 {
        s
    } else {
        seq![s[0]] + greedy_keep(s.drop_first().filter(clear_of(s[0], threshold)), threshold)
    }
}

#[via_fn]
proof fn greedy_keep_decreases(s: Seq<BBox>, threshold: u32) {
    if s.len() > 0 {
        s.drop_first().lemma_filter_len(clear_of(s[0], threshold));
    }
}

/// Non-maximum suppression: a stable sort by descending confidence, then the
/// greedy sweep.
pub open spec fn nms(s: Seq<BBox>, threshold: u32) -> Seq<BBox> {
    greedy_keep(sorted_by_confidence(s), threshold)
}

/// Per-class suppression: the boxes of the first box's class are suppressed
/// among themselves, followed by the same on the boxes of all other classes.
/// Classes come out in order of first appearance.
pub open spec fn class_nms(s: Seq<BBox>, threshold: u32) -> Seq<BBox>
    decreases s.len(),
    via class_nms_decreases
{
    if s.len() == 0 {
        s
    } else {
        nms(boxes_of_class(s, s[0].class_id@), threshold) + class_nms(
            s.filter(not_of_class(s[0].class_id@)),
            threshold,
        )
    }
}

proof fn lemma_filter_drops_first(s: Seq<BBox>, p: spec_fn(BBox) -> bool)
    requires
        s.len() > 0,
        !p(s[0]),
    ensures
        s.filter(p).len() < s.len(),
{
    let t = s.drop_first();
    assert(s =~= seq![s[0]] + t);
    t.lemma_filter_prepend(s[0], p);
    assert(s.filter(p) =~= t.filter(p));
    t.lemma_filter_len(p);
}

#[via_fn]
proof fn class_nms_decreases(s: Seq<BBox>, threshold: u32) {
    if s.len() > 0 {
        lemma_filter_drops_first(s, not_of_class(s[0].class_id@));
    }
}

pub open spec fn pairwise_clear(s: Seq<BBox>, threshold: u32) -> bool {
    forall|i: int, j: int| 0 <= i < j < s.len() ==> !iou_exceeds(#[trigger] s[i], #[trigger] s[j], threshold)
}

proof fn lemma_filter_subset(s: Seq<BBox>, p: spec_fn(BBox) -> bool, y: BBox)
    requires
        s.filter(p).contains(y),
    ensures
        s.contains(y),
        p(y),
{
    s.lemma_filter_contains_rev(p, y);
    let k = choose|k: int| 0 <= k < s.filter(p).len() && s.filter(p)[k] == y;
    s.lemma_filter_pred(p, k);
}

proof fn lemma_filter_all(s: Seq<BBox>, p: spec_fn(BBox) -> bool)
    requires
        forall|i: int| 0 <= i < s.len() ==> p(#[trigger] s[i]),
    ensures
        s.filter(p) == s,
    decreases s.len(),
{
    reveal(Seq::filter);
    if s.len() > 0 {
        lemma_filter_all(s.drop_last(), p);
        assert(s.drop_last().push(s.last()) =~= s);
    }
}

proof fn lemma_greedy_elements(s: Seq<BBox>, threshold: u32)
    ensures
        forall|y: BBox| #[trigger] greedy_keep(s, threshold).contains(y) ==> s.contains(y),
    decreases s.len(),
{
    if s.len() > 0 {
        let rest = s.drop_first();
        let c = rest.filter(clear_of(s[0], threshold));
        rest.lemma_filter_len(clear_of(s[0], threshold));
        lemma_greedy_elements(c, threshold);
        let g = greedy_keep(s, threshold);
        assert forall|y: BBox| #[trigger] g.contains(y) implies s.contains(y) by {
            let k = choose|k: int| 0 <= k < g.len() && g[k] == y;
            if k == 0 {
                assert(s[0] == y);
            } else {
                assert(greedy_keep(c, threshold)[k - 1] == y);
                assert(greedy_keep(c, threshold).contains(y));
                lemma_filter_subset(rest, clear_of(s[0], threshold), y);
                let m = choose|m: int| 0 <= m < rest.len() && rest[m] == y;
                assert(s[m + 1] == y);
            }
        }
    }
}

proof fn lemma_greedy_pairwise(s: Seq<BBox>, threshold: u32)
    ensures
        pairwise_clear(greedy_keep(s, threshold), threshold),
    decreases s.len(),
{
    if s.len() > 0 {
        let rest = s.drop_first();
        let c = rest.filter(clear_of(s[0], threshold));
        rest.lemma_filter_len(clear_of(s[0], threshold));
        lemma_greedy_pairwise(c, threshold);
        lemma_greedy_elements(c, threshold);
        let g = greedy_keep(s, threshold);
        let gc = greedy_keep(c, threshold);
        assert forall|i: int, j: int| 0 <= i < j < g.len() implies !iou_exceeds(
            #[trigger] g[i],
            #[trigger] g[j],
            threshold,
        ) by {
            if i == 0 {
                assert(g[j] == gc[j - 1]);
                assert(gc.contains(gc[j - 1]));
                lemma_filter_subset(rest, clear_of(s[0], threshold), g[j]);
            } else {
                assert(g[i] == gc[i - 1] && g[j] == gc[j - 1]);
            }
        }
    }
}

proof fn lemma_greedy_ordered(s: Seq<BBox>, threshold: u32)
    requires
        is_ordered_by(s, by_confidence()),
    ensures
        is_ordered_by(greedy_keep(s, threshold), by_confidence()),
    decreases s.len(),
{
    if s.len() > 0 {
        let rest = s.drop_first();
        let p = clear_of(s[0], threshold);
        let c = rest.filter(p);
        assert(is_ordered_by(rest, by_confidence())) by {
            assert forall|i: int, j: int| 0 <= i < j < rest.len() implies #[trigger] (by_confidence())(
                rest[i],
                rest[j],
            ) by {
                assert((by_confidence())(s[i + 1], s[j + 1]));
            }
        }
        lemma_filter_ordered(rest, p, by_confidence());
        rest.lemma_filter_len(p);
        lemma_greedy_ordered(c, threshold);
        lemma_greedy_elements(c, threshold);
        let g = greedy_keep(s, threshold);
        let gc = greedy_keep(c, threshold);
        assert forall|i: int, j: int| 0 <= i < j < g.len() implies #[trigger] (by_confidence())(
            g[i],
            g[j],
        ) by {
            assert(g[j] == gc[j - 1]);
            if i == 0 {
                assert(gc.contains(gc[j - 1]));
                lemma_filter_subset(rest, p, g[j]);
                let m = choose|m: int| 0 <= m < rest.len() && rest[m] == g[j];
                assert((by_confidence())(s[0], s[m + 1]));
            } else {
                assert(g[i] == gc[i - 1]);
            }
        }
    }
}

proof fn lemma_greedy_of_clear(s: Seq<BBox>, threshold: u32)
    requires
        pairwise_clear(s, threshold),
    ensures
        greedy_keep(s, threshold) == s,
    decreases s.len(),
{
    if s.len() > 0 {
        let rest = s.drop_first();
        let p = clear_of(s[0], threshold);
        assert forall|i: int| 0 <= i < rest.len() implies p(#[trigger] rest[i]) by {
            assert(!iou_exceeds(s[0], s[i + 1], threshold));
        }
        lemma_filter_all(rest, p);
        assert(pairwise_clear(rest, threshold)) by {
            assert forall|i: int, j: int| 0 <= i < j < rest.len() implies !iou_exceeds(
                #[trigger] rest[i],
                #[trigger] rest[j],
                threshold,
            ) by {
                assert(!iou_exceeds(s[i + 1], s[j + 1], threshold));
            }
        }
        lemma_greedy_of_clear(rest, threshold);
        assert(seq![s[0]] + rest =~= s);
    }
}

/// Every box that suppression keeps comes from its input.
pub proof fn lemma_nms_elements(s: Seq<BBox>, threshold: u32)
    ensures
        forall|y: BBox| #[trigger] nms(s, threshold).contains(y) ==> s.contains(y),
{
    lemma_greedy_elements(sorted_by_confidence(s), threshold);
    lemma_sort_elements(s, by_confidence());
}

/// Suppression is idempotent: suppressing its own result with the same
/// threshold changes nothing.
pub proof fn lemma_nms_idempotent(s: Seq<BBox>, threshold: u32)
    ensures
        nms(nms(s, threshold), threshold) == nms(s, threshold),
{
    let r = nms(s, threshold);
    lemma_by_confidence_total();
    lemma_sort_ordered(s, by_confidence());
    lemma_greedy_ordered(sorted_by_confidence(s), threshold);
    lemma_sort_of_ordered(r, by_confidence());
    lemma_greedy_pairwise(sorted_by_confidence(s), threshold);
    lemma_greedy_of_clear(r, threshold);
}

/// No two distinct positions of the result overlap above the threshold:
/// IoU(a, b) <= threshold for every pair of kept boxes.
pub proof fn lemma_nms_max_iou(s: Seq<BBox>, threshold: u32)
    ensures
        forall|i: int, j: int|
            0 <= i < nms(s, threshold).len() && 0 <= j < nms(s, threshold).len() && i != j
                ==> !iou_exceeds(#[trigger] nms(s, threshold)[i], #[trigger] nms(s, threshold)[j], threshold),
{
    let r = nms(s, threshold);
    lemma_greedy_pairwise(sorted_by_confidence(s), threshold);
    assert forall|i: int, j: int| 0 <= i < r.len() && 0 <= j < r.len() && i != j implies !iou_exceeds(
        #[trigger] r[i],
        #[trigger] r[j],
        threshold,
    ) by {
        lemma_iou_exceeds_symmetric(r[i], r[j], threshold);
    }
}

/// The first box of the result is a box of the input with the highest
/// confidence (the first such in input order wins ties): it is never suppressed.
pub proof fn lemma_nms_keeps_best(s: Seq<BBox>, threshold: u32)
    requires
        s.len() > 0,
    ensures
        nms(s, threshold).len() > 0,
        nms(s, threshold)[0] == sorted_by_confidence(s)[0],
        s.contains(nms(s, threshold)[0]),
        forall|i: int| 0 <= i < s.len() ==> nms(s, threshold)[0].confidence >= #[trigger] s[i].confidence,
{
    let sorted = sorted_by_confidence(s);
    lemma_by_confidence_total();
    lemma_sort_ordered(s, by_confidence());
    lemma_sort_elements(s, by_confidence());
    assert(sorted.contains(sorted[0]));
    assert forall|i: int| 0 <= i < s.len() implies sorted[0].confidence >= #[trigger] s[i].confidence by {
        assert(s.contains(s[i]));
        assert(crate::sorting::stable_sort(s, by_confidence()).contains(s[i]));
        assert(sorted.contains(s[i]));
        let j = choose|j: int| 0 <= j < sorted.len() && sorted[j] == s[i];
        if j > 0 {
            assert((by_confidence())(sorted[0], sorted[j]));
        }
    }
}

proof fn lemma_class_nms_elements(s: Seq<BBox>, threshold: u32)
    ensures
        forall|y: BBox| #[trigger] class_nms(s, threshold).contains(y) ==> s.contains(y),
    decreases s.len(),
{
    if s.len() > 0 {
        let c = s[0].class_id@;
        let group = boxes_of_class(s, c);
        let rest = s.filter(not_of_class(c));
        let a = nms(group, threshold);
        let b = class_nms(rest, threshold);
        lemma_filter_drops_first(s, not_of_class(c));
        lemma_class_nms_elements(rest, threshold);
        lemma_nms_elements(group, threshold);
        assert forall|y: BBox| #[trigger] class_nms(s, threshold).contains(y) implies s.contains(y) by {
            let k = choose|k: int| 0 <= k < (a + b).len() && (a + b)[k] == y;
            if k < a.len() {
                assert(a.contains(a[k]));
                lemma_filter_subset(s, has_class(c), y);
            } else {
                assert(b.contains(b[k - a.len()]));
                lemma_filter_subset(s, not_of_class(c), y);
            }
        }
    }
}

/// Per-class suppression keeps no two boxes of one class that overlap above
/// the threshold.
pub proof fn lemma_class_nms_max_iou(s: Seq<BBox>, threshold: u32)
    ensures
        forall|i: int, j: int|
            0 <= i < class_nms(s, threshold).len() && 0 <= j < class_nms(s, threshold).len() && i != j
                && class_nms(s, threshold)[i].class_id@ == class_nms(s, threshold)[j].class_id@
                ==> !iou_exceeds(
                #[trigger] class_nms(s, threshold)[i],
                #[trigger] class_nms(s, threshold)[j],
                threshold,
            ),
    decreases s.len(),
{
    if s.len() > 0 {
        let c = s[0].class_id@;
        let group = boxes_of_class(s, c);
        let rest = s.filter(not_of_class(c));
        let a = nms(group, threshold);
        let b = class_nms(rest, threshold);
        let r = class_nms(s, threshold);
        lemma_filter_drops_first(s, not_of_class(c));
        lemma_class_nms_max_iou(rest, threshold);
        lemma_class_nms_elements(rest, threshold);
        lemma_nms_elements(group, threshold);
        lemma_nms_max_iou(group, threshold);
        assert forall|i: int, j: int|
            0 <= i < r.len() && 0 <= j < r.len() && i != j && r[i].class_id@ == r[j].class_id@
                implies !iou_exceeds(#[trigger] r[i], #[trigger] r[j], threshold) by {
            if i < a.len() && j < a.len() {
                assert(r[i] == a[i] && r[j] == a[j]);
            } else if i >= a.len() && j >= a.len() {
                assert(r[i] == b[i - a.len()] && r[j] == b[j - a.len()]);
            } else {
                let (x, y) = if i < a.len() { (i, j) } else { (j, i) };
                assert(a.contains(a[x]));
                assert(r[x] == a[x]);
                lemma_filter_subset(s, has_class(c), r[x]);
                assert(b.contains(b[y - a.len()]));
                assert(r[y] == b[y - a.len()]);
                lemma_filter_subset(s, not_of_class(c), r[y]);
            }
        }
    }
}

/// `b` is a box of class `c` taken from `s`, and no box of class `c` in `s`
/// has a higher confidence.
pub open spec fn best_of_class(b: BBox, s: Seq<BBox>, c: Seq<char>) -> bool {
    &&& b.class_id@ == c
    &&& s.contains(b)
    &&& forall|i: int| 0 <= i < s.len() && s[i].class_id@ == c ==> b.confidence >= #[trigger] s[i].confidence
}

/// Per-class suppression keeps, for every class present in its input, a box
/// of that class with the highest confidence within the class.
pub proof fn lemma_class_nms_keeps_best(s: Seq<BBox>, threshold: u32, c: Seq<char>)
    requires
        exists|i: int| 0 <= i < s.len() && #[trigger] s[i].class_id@ == c,
    ensures
        exists|k: int|
            0 <= k < class_nms(s, threshold).len() && best_of_class(#[trigger] class_nms(s, threshold)[k], s, c),
    decreases s.len(),
{
    let c0 = s[0].class_id@;
    let group = boxes_of_class(s, c0);
    let rest = s.filter(not_of_class(c0));
    let a = nms(group, threshold);
    let b = class_nms(rest, threshold);
    let r = class_nms(s, threshold);
    assert(r == a + b);
    lemma_filter_drops_first(s, not_of_class(c0));
    if c == c0 {
        s.lemma_filter_contains(has_class(c0), 0);
        assert(group.len() > 0);
        lemma_nms_keeps_best(group, threshold);
        assert(group.contains(a[0]));
        lemma_filter_subset(s, has_class(c0), a[0]);
        assert forall|i: int| 0 <= i < s.len() && s[i].class_id@ == c implies a[0].confidence
            >= #[trigger] s[i].confidence by {
            s.lemma_filter_contains(has_class(c0), i);
            let j = choose|j: int| 0 <= j < group.len() && group[j] == s[i];
        }
        assert(r[0] == a[0]);
        assert(best_of_class(r[0], s, c));
    } else {
        let i0 = choose|i: int| 0 <= i < s.len() && #[trigger] s[i].class_id@ == c;
        s.lemma_filter_contains(not_of_class(c0), i0);
        let j0 = choose|j: int| 0 <= j < rest.len() && rest[j] == s[i0];
        assert(rest[j0].class_id@ == c);
        lemma_class_nms_keeps_best(rest, threshold, c);
        let k = choose|k: int| 0 <= k < b.len() && best_of_class(#[trigger] b[k], rest, c);
        let x = b[k];
        lemma_filter_subset(s, not_of_class(c0), x);
        assert forall|i: int| 0 <= i < s.len() && s[i].class_id@ == c implies x.confidence
            >= #[trigger] s[i].confidence by {
            s.lemma_filter_contains(not_of_class(c0), i);
            let j = choose|j: int| 0 <= j < rest.len() && rest[j] == s[i];
            assert(rest[j].class_id@ == c);
        }
        assert(r[a.len() + k] == x);
        assert(best_of_class(r[a.len() + k], s, c));
    }
}

impl BBoxCollection {
    /// Sorts by descending confidence, then keeps each box that no kept box
    /// before it overlaps above `threshold` (IoU in millionths). A threshold
    /// above 1 is a configuration error that callers reject beforehand.
    pub fn apply_nms(self, threshold: u32) -> (r: BBoxCollection)
        requires
            self.wf(),
            threshold <= SCALE,
        ensures
            r.wf(),
            r@ == nms(self@, threshold),
    {
        let mut c = self;
        c.sort_by_confidence();
        let mut remaining = c.into_vec();
        let ghost sorted = remaining@;
        let mut kept: Vec<BBox> = Vec::new();
        while remaining.len() > 0
            invariant
                kept@ + greedy_keep(remaining@, threshold) == greedy_keep(sorted, threshold),
                all_valid(remaining@),
                all_valid(kept@),
            decreases remaining@.len(),
        {
            let ghost before = remaining@;
            let first = remaining.remove(0);
            let ghost rest = remaining@;
            assert(rest == before.drop_first());
            let mut next: Vec<BBox> = Vec::new();
            for b in iter: remaining.into_iter()
                invariant
                    iter.seq() == rest,
                    all_valid(rest),
                    next@ == rest.take(iter.index() as int).filter(clear_of(first, threshold)),
                    all_valid(next@),
            {
                proof {
                    let n = iter.index() as int;
                    assert(rest.take(n + 1) =~= rest.take(n).push(b));
                    rest.take(n).lemma_filter_push(b, clear_of(first, threshold));
                    assert(rest[n] == b);
                }
                if !first.overlaps(&b, threshold) {
                    next.push(b);
                }
            }
            proof {
                assert(rest.take(rest.len() as int) =~= rest);
                rest.lemma_filter_len(clear_of(first, threshold));
                assert(kept@.push(first) + greedy_keep(next@, threshold) =~= kept@ + greedy_keep(
                    before,
                    threshold,
                ));
            }
            kept.push(first);
            remaining = next;
        }
        assert(kept@ =~= greedy_keep(sorted, threshold));
        BBoxCollection::from_valid(kept)
    }

    /// Suppression within each class separately; boxes of different classes
    /// never suppress each other. Classes come out in order of first appearance.
    pub fn apply_class_nms(self, threshold: u32) -> (r: BBoxCollection)
        requires
            self.wf(),
            threshold <= SCALE,
        ensures
            r.wf(),
            r@ == class_nms(self@, threshold),
    {
        let mut remaining = self.into_vec();
        let ghost orig = remaining@;
        let mut out: Vec<BBox> = Vec::new();
        while remaining.len() > 0
            invariant
                threshold <= SCALE,
                out@ + class_nms(remaining@, threshold) == class_nms(orig, threshold),
                all_valid(remaining@),
                all_valid(out@),
            decreases remaining@.len(),
        {
            let ghost cur = remaining@;
            let label = remaining[0].class_id.clone();
            let ghost c = label@;
            assert(c == cur[0].class_id@);
            let mut same: Vec<BBox> = Vec::new();
            let mut other: Vec<BBox> = Vec::new();
            for b in iter: remaining.into_iter()
                invariant
                    iter.seq() == cur,
                    label@ == c,
                    all_valid(cur),
                    same@ == cur.take(iter.index() as int).filter(has_class(c)),
                    other@ == cur.take(iter.index() as int).filter(not_of_class(c)),
                    all_valid(same@),
                    all_valid(other@),
            {
                proof {
                    let n = iter.index() as int;
                    assert(cur.take(n + 1) =~= cur.take(n).push(b));
                    cur.take(n).lemma_filter_push(b, has_class(c));
                    cur.take(n).lemma_filter_push(b, not_of_class(c));
                    assert(cur[n] == b);
                }
                if b.class_id == label {
                    same.push(b);
                } else {
                    other.push(b);
                }
            }
            proof {
                assert(cur.take(cur.len() as int) =~= cur);
                lemma_filter_drops_first(cur, not_of_class(c));
            }
            let kept = BBoxCollection::from_valid(same).apply_nms(threshold);
            let mut kv = kept.into_vec();
            let ghost before = out@;
            out.append(&mut kv);
            proof {
                assert(same@ == boxes_of_class(cur, c));
                assert(class_nms(cur, threshold) == kept@ + class_nms(other@, threshold));
                assert(out@ + class_nms(other@, threshold) =~= before + class_nms(cur, threshold));
            }
            remaining = other;
        }
        assert(out@ + class_nms(remaining@, threshold) =~= out@);
        BBoxCollection::from_valid(out)
    }

    /// Suppression across all classes: a box of one class can suppress an
    /// overlapping box of another.
    pub fn apply_global_nms(self, threshold: u32) -> (r: BBoxCollection)
        requires
            self.wf(),
            threshold <= SCALE,
        ensures
            r.wf(),
            r@ == nms(self@, threshold),
    {
        self.apply_nms(threshold)
    }
}

/// Free-standing entry points to the suppression variants.
pub struct NonMaxSuppressionUtils;

impl NonMaxSuppressionUtils {
    pub fn apply_nms(boxes: BBoxCollection, threshold: u32) -> (r: BBoxCollection)
        requires
            boxes.wf(),
            threshold <= SCALE,
        ensures
            r.wf(),
            r@ == nms(boxes@, threshold),
    {
        boxes.apply_nms(threshold)
    }

    pub fn apply_class_nms(boxes: BBoxCollection, threshold: u32) -> (r: BBoxCollection)
        requires
            boxes.wf(),
            threshold <= SCALE,
        ensures
            r.wf(),
            r@ == class_nms(boxes@, threshold),
    {
        boxes.apply_class_nms(threshold)
    }

    pub fn apply_global_nms(boxes: BBoxCollection, threshold: u32) -> (r: BBoxCollection)
        requires
            boxes.wf(),
            threshold <= SCALE,
        ensures
            r.wf(),
            r@ == nms(boxes@, threshold),
    {
        boxes.apply_global_nms(threshold)
    }
}

} // verus!
