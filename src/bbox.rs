//! Detected boxes, their exact overlap measure, and a collection of valid boxes.
use vstd::prelude::*;

use crate::sorting::{
    is_total_preorder, lemma_insertion_point, lemma_insertion_point_unique,
    stable_sort,
};
use crate::SCALE;

verus! {

/// One detection: an axis-aligned box with a confidence (in millionths), a
/// class label, a display color and free-form metadata.
#[derive(Debug)]
pub struct BBox {
    pub x: i32,
    pub y: i32,
    pub width: i32,
    pub height: i32,
    pub confidence: u32,
    pub class_id: String,
    pub color: (u8, u8, u8),
    /// Key/value pairs; a key occurs at most once when filled through `with_metadata`.
    pub metadata: Vec<(String, String)>,
}

/// What a box means, with its strings seen as character sequences.
pub struct BBoxModel {
    pub x: int,
    pub y: int,
    pub width: int,
    pub height: int,
    pub confidence: nat,
    pub class_id: Seq<char>,
    pub color: (u8, u8, u8),
    pub metadata: Seq<(Seq<char>, Seq<char>)>,
}

impl View for BBox {
    type V = BBoxModel;

    open spec fn view(&self) -> BBoxModel {
        BBoxModel {
            x: self.x as int,
            y: self.y as int,
            width: self.width as int,
            height: self.height as int,
            confidence: self.confidence as nat,
            class_id: self.class_id@,
            color: self.color,
            metadata: self.metadata@.map_values(|kv: (String, String)| (kv.0@, kv.1@)),
        }
    }
}

/// A box accepted into a collection: positive size, confidence at most 1.
pub open spec fn is_valid(b: BBox) -> bool {
    b.width > 0 && b.height > 0 && b.confidence <= SCALE
}

pub open spec fn box_area(b: BBox) -> int {
    b.width * b.height
}

pub open spec fn spec_min(a: int, b: int) -> int {
    if a <= b { a } else { b }
}

pub open spec fn spec_max(a: int, b: int) -> int {
    if a >= b { a } else { b }
}

pub open spec fn overlap_width(a: BBox, b: BBox) -> int {
    spec_min(a.x + a.width, b.x + b.width) - spec_max(a.x as int, b.x as int)
}

pub open spec fn overlap_height(a: BBox, b: BBox) -> int {
    spec_min(a.y + a.height, b.y + b.height) - spec_max(a.y as int, b.y as int)
}

/// Area shared by two boxes; 0 when they do not overlap.
pub open spec fn intersection_area(a: BBox, b: BBox) -> int {
    if overlap_width(a, b) > 0 && overlap_height(a, b) > 0 {
        overlap_width(a, b) * overlap_height(a, b)
    } else {
        0
    }
}

pub open spec fn union_area(a: BBox, b: BBox) -> int {
    box_area(a) + box_area(b) - intersection_area(a, b)
}

/// IoU(a, b) > threshold / SCALE, decided exactly: IoU is
/// intersection / union, and 0 for boxes that do not overlap.
pub open spec fn iou_exceeds(a: BBox, b: BBox, threshold: u32) -> bool {
    intersection_area(a, b) > 0 && intersection_area(a, b) * SCALE > threshold * union_area(a, b)
}

/// IoU in millionths, rounded down.
pub open spec fn iou_scaled(a: BBox, b: BBox) -> int {
    if intersection_area(a, b) > 0 {
        intersection_area(a, b) * SCALE / union_area(a, b)
    } else {
        0
    }
}

/// Half of `v`, rounded toward zero.
pub open spec fn half_toward_zero(v: int) -> int {
    if v >= 0 { v / 2 } else { -((-v) / 2) }
}

pub open spec fn center_x(b: BBox) -> int {
    b.x + half_toward_zero(b.width as int)
}

pub open spec fn center_y(b: BBox) -> int {
    b.y + half_toward_zero(b.height as int)
}

pub(crate) proof fn lemma_mul_abs_bound(a: int, b: int, ba: int, bb: int)
    requires
        -ba <= a <= ba,
        -bb <= b <= bb,
    ensures
        -(ba * bb) <= a * b <= ba * bb,
{
    assert(-(ba * bb) <= a * b <= ba * bb) by (nonlinear_arith)
        requires
            -ba <= a <= ba,
            -bb <= b <= bb,
    ;
}

/// A shared area never exceeds either box's area, so the union is positive
/// whenever the boxes overlap.
proof fn lemma_intersection_le_area(a: BBox, b: BBox)
    requires
        intersection_area(a, b) > 0,
    ensures
        intersection_area(a, b) <= box_area(a),
        intersection_area(a, b) <= box_area(b),
        union_area(a, b) >= box_area(a) > 0,
        intersection_area(a, b) == intersection_area(b, a),
        union_area(a, b) == union_area(b, a),
{
    let w = overlap_width(a, b);
    let h = overlap_height(a, b);
    let aw = a.width as int;
    let ah = a.height as int;
    let bw = b.width as int;
    let bh = b.height as int;
    assert(w <= aw && w <= bw && h <= ah && h <= bh);
    assert(w * h <= aw * ah) by (nonlinear_arith)
        requires
            0 < w <= aw,
            0 < h <= ah,
    ;
    assert(w * h <= bw * bh) by (nonlinear_arith)
        requires
            0 < w <= bw,
            0 < h <= bh,
    ;
    assert(overlap_width(a, b) == overlap_width(b, a));
    assert(overlap_height(a, b) == overlap_height(b, a));
}

/// Overlap above a threshold does not depend on the order of the two boxes.
pub proof fn lemma_iou_exceeds_symmetric(a: BBox, b: BBox, threshold: u32)
    ensures
        iou_exceeds(a, b, threshold) == iou_exceeds(b, a, threshold),
{
    assert(overlap_width(a, b) == overlap_width(b, a));
    assert(overlap_height(a, b) == overlap_height(b, a));
    assert(intersection_area(a, b) == intersection_area(b, a)) by (nonlinear_arith)
        requires
            overlap_width(a, b) == overlap_width(b, a),
            overlap_height(a, b) == overlap_height(b, a),
    ;
}

fn min_i64(a: i64, b: i64) -> (r: i64)
    ensures
        r == spec_min(a as int, b as int),
{
    if a <= b { a } else { b }
}

fn max_i64(a: i64, b: i64) -> (r: i64)
    ensures
        r == spec_max(a as int, b as int),
{
    if a >= b { a } else { b }
}

impl BBox {
    /// A box without class (empty label), white, with no metadata.
    pub fn new(x: i32, y: i32, width: i32, height: i32, confidence: u32) -> (r: BBox)
        ensures
            r.x == x,
            r.y == y,
            r.width == width,
            r.height == height,
            r.confidence == confidence,
            r.class_id@ == Seq::<char>::empty(),
            r.color == (255u8, 255u8, 255u8),
            r.metadata@ == Seq::<(String, String)>::empty(),
            keys_unique(r.metadata@),
    {
        BBox {
            x,
            y,
            width,
            height,
            confidence,
            class_id: String::new(),
            color: (255, 255, 255),
            metadata: Vec::new(),
        }
    }

    pub fn area(&self) -> (r: i64)
        ensures
            r == box_area(*self),
    {
        proof {
            lemma_mul_abs_bound(self.width as int, self.height as int, 0x8000_0000, 0x8000_0000);
        }
        (self.width as i64) * (self.height as i64)
    }

    /// Center point, each coordinate halved toward zero as integer division does.
    pub fn center(&self) -> (r: (i64, i64))
        ensures
            r.0 == center_x(*self),
            r.1 == center_y(*self),
    {
        let hw: i64 = if self.width >= 0 {
            (self.width / 2) as i64
        } else {
            -(((-(self.width as i64)) as u64 / 2) as i64)
        };
        let hh: i64 = if self.height >= 0 {
            (self.height / 2) as i64
        } else {
            -(((-(self.height as i64)) as u64 / 2) as i64)
        };
        (self.x as i64 + hw, self.y as i64 + hh)
    }

    /// Shared area and union area, exact.
    fn overlap_areas(&self, other: &BBox) -> (r: (i128, i128))
        ensures
            r.0 == intersection_area(*self, *other),
            r.1 == union_area(*self, *other),
            0 <= r.0 <= 0x4_0000_0000_0000_0000int,
            -0x10_0000_0000_0000_0000int <= r.1 <= 0x10_0000_0000_0000_0000int,
    {
        let x1 = max_i64(self.x as i64, other.x as i64);
        let y1 = max_i64(self.y as i64, other.y as i64);
        let x2 = min_i64(self.x as i64 + self.width as i64, other.x as i64 + other.width as i64);
        let y2 = min_i64(self.y as i64 + self.height as i64, other.y as i64 + other.height as i64);
        let inter: i128 = if x2 <= x1 || y2 <= y1 {
            0
        } else {
            proof {
                lemma_mul_abs_bound((x2 - x1) as int, (y2 - y1) as int, 0x2_0000_0000int, 0x2_0000_0000int);
            }
            ((x2 - x1) as i128) * ((y2 - y1) as i128)
        };
        proof {
            lemma_mul_abs_bound(self.width as int, self.height as int, 0x8000_0000, 0x8000_0000);
            lemma_mul_abs_bound(other.width as int, other.height as int, 0x8000_0000, 0x8000_0000);
        }
        let a1 = (self.width as i128) * (self.height as i128);
        let a2 = (other.width as i128) * (other.height as i128);
        (inter, a1 + a2 - inter)
    }

    /// IoU with another box in millionths, rounded down; 0 when they do not overlap.
    pub fn iou(&self, other: &BBox) -> (r: u32)
        ensures
            r == iou_scaled(*self, *other),
    {
        let (inter, total) = self.overlap_areas(other);
        if inter <= 0 {
            return 0;
        }
        proof {
            lemma_intersection_le_area(*self, *other);
            let i = inter as int;
            let u = total as int;
            let sc = SCALE as int;
            assert(0 <= i * sc / u <= sc) by (nonlinear_arith)
                requires
                    0 < i <= u,
                    sc > 0,
            ;
        }
        let q: i128 = (inter * 1_000_000) / total;
        q as u32
    }

    /// Whether the IoU with `other` is above `threshold` (millionths).
    pub fn overlaps(&self, other: &BBox, threshold: u32) -> (r: bool)
        ensures
            r == iou_exceeds(*self, *other, threshold),
    {
        let (inter, total) = self.overlap_areas(other);
        if inter <= 0 {
            return false;
        }
        proof {
            lemma_mul_abs_bound(inter as int, SCALE as int, 0x4_0000_0000_0000_0000int, SCALE as int);
            lemma_mul_abs_bound(threshold as int, total as int, 0x1_0000_0000int, 0x10_0000_0000_0000_0000int);
        }
        inter * (SCALE as i128) > (threshold as i128) * total
    }

    /// Sets the class label and the color.
    pub fn with_class(self, class_id: String, color: (u8, u8, u8)) -> (r: BBox)
        ensures
            r == (BBox { class_id, color, ..self }),
    {
        let mut b = self;
        b.class_id = class_id;
        b.color = color;
        b
    }

    /// Sets a metadata entry: replaces the value of the first entry with the
    /// same key, or appends the pair.
    pub fn with_metadata(self, key: String, value: String) -> (r: BBox)
        ensures
            r.x == self.x && r.y == self.y && r.width == self.width && r.height == self.height,
            r.confidence == self.confidence && r.class_id == self.class_id && r.color == self.color,
            match first_key_index(self.metadata@, key@) {
                Some(i) => 0 <= i < self.metadata@.len() && r.metadata@ == self.metadata@.update(i, (self.metadata@[i].0, value)),
                None => r.metadata@ == self.metadata@.push((key, value)),
            },
            keys_unique(self.metadata@) ==> keys_unique(r.metadata@),
            r.metadata@.len() >= 1,
    {
        let BBox { x, y, width, height, confidence, class_id, color, mut metadata } = self;
        let ghost m = metadata@;
        let mut i: usize = 0;
        while i < metadata.len()
            invariant
                metadata@ == m,
                m == self.metadata@,
                x == self.x && y == self.y && width == self.width && height == self.height,
                confidence == self.confidence && class_id == self.class_id && color == self.color,
                i <= m.len(),
                forall|j: int| 0 <= j < i ==> m[j].0@ != key@,
            decreases m.len() - i,
        {
            if metadata[i].0 == key {
                proof {
                    lemma_first_key_index(m, key@, i as int);
                }
                let k = metadata[i].0.clone();
                metadata.set(i, (k, value));
                proof {
                    let m2 = metadata@;
                    if keys_unique(m) {
                        assert forall|a: int, b: int| 0 <= a < b < m2.len() implies (#[trigger] m2[a]).0@
                            != (#[trigger] m2[b]).0@ by {
                            assert(m2[a].0 == m[a].0 && m2[b].0 == m[b].0);
                            assert(m[a].0@ != m[b].0@);
                        }
                    }
                }
                return BBox { x, y, width, height, confidence, class_id, color, metadata };
            }
            i = i + 1;
        }
        proof {
            lemma_first_key_index_none(m, key@);
        }
        metadata.push((key, value));
        proof {
            let m2 = metadata@;
            if keys_unique(m) {
                assert forall|a: int, b: int| 0 <= a < b < m2.len() implies (#[trigger] m2[a]).0@ != (
                #[trigger] m2[b]).0@ by {
                    if b == m.len() {
                        assert(m2[a] == m[a]);
                    } else {
                        assert(m2[a] == m[a] && m2[b] == m[b]);
                    }
                }
            }
        }
        BBox { x, y, width, height, confidence, class_id, color, metadata }
    }
}

/// No key occurs twice: the entries form a map from keys to values.
pub open spec fn keys_unique(m: Seq<(String, String)>) -> bool {
    forall|i: int, j: int| 0 <= i < j < m.len() ==> (#[trigger] m[i]).0@ != (#[trigger] m[j]).0@
}

/// Index of the first entry whose key reads `key`.
pub open spec fn first_key_index(m: Seq<(String, String)>, key: Seq<char>) -> Option<int>
    decreases m.len(),
{
    if m.len() == 0 {
        None
    } else if m[0].0@ == key {
        Some(0)
    } else {
        match first_key_index(m.drop_first(), key) {
            Some(i) => Some(i + 1),
            None => None,
        }
    }
}

proof fn lemma_first_key_index(m: Seq<(String, String)>, key: Seq<char>, i: int)
    requires
        0 <= i < m.len(),
        m[i].0@ == key,
        forall|j: int| 0 <= j < i ==> m[j].0@ != key,
    ensures
        first_key_index(m, key) == Some(i),
    decreases i,
{
    if i > 0 {
        let t = m.drop_first();
        assert forall|j: int| 0 <= j < i - 1 implies t[j].0@ != key by {
            assert(t[j] == m[j + 1]);
        }
        lemma_first_key_index(t, key, i - 1);
    }
}

proof fn lemma_first_key_index_none(m: Seq<(String, String)>, key: Seq<char>)
    requires
        forall|j: int| 0 <= j < m.len() ==> m[j].0@ != key,
    ensures
        first_key_index(m, key) == None::<int>,
    decreases m.len(),
{
    if m.len() > 0 {
        let t = m.drop_first();
        assert forall|j: int| 0 <= j < t.len() implies t[j].0@ != key by {
            assert(t[j] == m[j + 1]);
        }
        lemma_first_key_index_none(t, key);
    }
}

impl BBox {
    /// A field-by-field copy with the same model.
    pub fn duplicate(&self) -> (r: BBox)
        ensures
            r@ == self@,
    {
        let mut metadata: Vec<(String, String)> = Vec::new();
        let mut i: usize = 0;
        while i < self.metadata.len()
            invariant
                i <= self.metadata@.len(),
                metadata@.len() == i,
                forall|k: int| 0 <= k < i ==> #[trigger] metadata@[k] == self.metadata@[k],
            decreases self.metadata@.len() - i,
        {
            let k = self.metadata[i].0.clone();
            let v = self.metadata[i].1.clone();
            metadata.push((k, v));
            i = i + 1;
        }
        assert(metadata@ =~= self.metadata@);
        BBox {
            x: self.x,
            y: self.y,
            width: self.width,
            height: self.height,
            confidence: self.confidence,
            class_id: self.class_id.clone(),
            color: self.color,
            metadata,
        }
    }
}

/// Order of a confidence sort: higher confidence first.
pub open spec fn by_confidence() -> spec_fn(BBox, BBox) -> bool {
    |a: BBox, b: BBox| a.confidence >= b.confidence
}

/// Boxes by descending confidence; boxes of equal confidence keep their order.
pub open spec fn sorted_by_confidence(s: Seq<BBox>) -> Seq<BBox> {
    stable_sort(s, by_confidence())
}

pub proof fn lemma_by_confidence_total()
    ensures
        is_total_preorder(by_confidence()),
{
}

pub open spec fn all_valid(s: Seq<BBox>) -> bool {
    forall|i: int| 0 <= i < s.len() ==> is_valid(#[trigger] s[i])
}

/// Class labels in order of first appearance, each once.
pub open spec fn class_labels(s: Seq<BBox>) -> Seq<Seq<char>>
    decreases s.len(),
{
    if s.len() == 0 {
        Seq::empty()
    } else {
        let d = class_labels(s.drop_last());
        if d.contains(s.last().class_id@) {
            d
        } else {
            d.push(s.last().class_id@)
        }
    }
}

pub open spec fn has_class(c: Seq<char>) -> spec_fn(BBox) -> bool {
    |b: BBox| b.class_id@ == c
}

pub open spec fn boxes_of_class(s: Seq<BBox>, c: Seq<char>) -> Seq<BBox> {
    s.filter(has_class(c))
}

pub open spec fn confidence_sum(s: Seq<BBox>) -> int
    decreases s.len(),
{
    if s.len() == 0 {
        0
    } else {
        confidence_sum(s.drop_last()) + s.last().confidence
    }
}

/// Highest confidence; 0 for no boxes.
pub open spec fn max_confidence(s: Seq<BBox>) -> int
    decreases s.len(),
{
    if s.len() == 0 {
        0
    } else {
        spec_max(max_confidence(s.drop_last()), s.last().confidence as int)
    }
}

/// Lowest confidence; 0 for no boxes.
pub open spec fn min_confidence(s: Seq<BBox>) -> int
    decreases s.len(),
{
    if s.len() == 0 {
        0
    } else if s.len() == 1 {
        s[0].confidence as int
    } else {
        spec_min(min_confidence(s.drop_last()), s.last().confidence as int)
    }
}

/// Mean confidence rounded down; 0 for no boxes.
pub open spec fn average_confidence(s: Seq<BBox>) -> int {
    if s.len() == 0 {
        0
    } else {
        confidence_sum(s) / (s.len() as int)
    }
}

/// Summary of a collection; confidences in millionths.
#[derive(Debug)]
pub struct BBoxStats {
    pub total_boxes: usize,
    /// One entry per class label, in order of first appearance.
    pub class_counts: Vec<(String, usize)>,
    pub avg_confidence: u32,
    pub max_confidence: u32,
    pub min_confidence: u32,
}

/// An ordered collection of valid boxes. Boxes with a non-positive width or
/// height, or a confidence above 1, are dropped when they come in.
#[derive(Debug)]
pub struct BBoxCollection {
    boxes: Vec<BBox>,
}

impl View for BBoxCollection {
    type V = Seq<BBox>;

    closed spec fn view(&self) -> Seq<BBox> {
        self.boxes@
    }
}

fn sort_boxes(v: Vec<BBox>) -> (r: Vec<BBox>)
    ensures
        r@ == sorted_by_confidence(v@),
{
    let ghost s = v@;
    let mut out: Vec<BBox> = Vec::new();
    for b in iter: v.into_iter()
        invariant
            iter.seq() == s,
            out@ == sorted_by_confidence(s.take(iter.index() as int)),
    {
        let ghost prev = out@;
        let ghost n = iter.index() as int;
        proof {
            assert(s.take(n + 1).drop_last() =~= s.take(n));
            assert(s.take(n + 1).last() == b);
        }
        let mut i: usize = 0;
        while i < out.len() && out[i].confidence >= b.confidence
            invariant
                out@ == prev,
                i <= prev.len(),
                forall|j: int| 0 <= j < i ==> (by_confidence())(prev[j], b),
            decreases prev.len() - i,
        {
            i = i + 1;
        }
        proof {
            lemma_insertion_point_unique(b, prev, by_confidence(), i as int);
            lemma_insertion_point(b, prev, by_confidence());
        }
        out.insert(i, b);
    }
    assert(s.take(s.len() as int) =~= s);
    out
}

fn class_listed(labels: &Vec<String>, c: &String) -> (r: bool)
    ensures
        r == labels@.map_values(|l: String| l@).contains(c@),
{
    let ghost lv = labels@.map_values(|l: String| l@);
    let mut j: usize = 0;
    while j < labels.len()
        invariant
            j <= labels@.len(),
            lv == labels@.map_values(|l: String| l@),
            forall|k: int| 0 <= k < j ==> lv[k] != c@,
        decreases labels@.len() - j,
    {
        if labels[j] == *c {
            assert(lv[j as int] == c@);
            return true;
        }
        j = j + 1;
    }
    false
}

impl BBoxCollection {
    /// Every box in the collection is valid.
    pub open spec fn wf(&self) -> bool {
        all_valid(self@)
    }

    pub fn new() -> (r: BBoxCollection)
        ensures
            r.wf(),
            r@ == Seq::<BBox>::empty(),
    {
        BBoxCollection { boxes: Vec::new() }
    }

    /// Keeps the valid boxes, in order.
    pub fn from_vec(boxes: Vec<BBox>) -> (r: BBoxCollection)
        ensures
            r.wf(),
            r@ == boxes@.filter(|b: BBox| is_valid(b)),
    {
        let ghost s = boxes@;
        let mut out: Vec<BBox> = Vec::new();
        for b in iter: boxes.into_iter()
            invariant
                iter.seq() == s,
                out@ == s.take(iter.index() as int).filter(|b: BBox| is_valid(b)),
                all_valid(out@),
        {
            proof {
                let n = iter.index() as int;
                assert(s.take(n + 1) =~= s.take(n).push(b));
                s.take(n).lemma_filter_push(b, |b: BBox| is_valid(b));
            }
            if b.width > 0 && b.height > 0 && b.confidence <= SCALE {
                out.push(b);
            }
        }
        assert(s.take(s.len() as int) =~= s);
        BBoxCollection { boxes: out }
    }

    /// Wraps boxes that are known to be valid.
    pub(crate) fn from_valid(boxes: Vec<BBox>) -> (r: BBoxCollection)
        requires
            all_valid(boxes@),
        ensures
            r.wf(),
            r@ == boxes@,
    {
        BBoxCollection { boxes }
    }

    pub fn into_vec(self) -> (r: Vec<BBox>)
        ensures
            r@ == self@,
    {
        self.boxes
    }

    /// Appends the box if it is valid; drops it otherwise.
    pub fn push(&mut self, bbox: BBox)
        requires
            old(self).wf(),
        ensures
            final(self).wf(),
            final(self)@ == if is_valid(bbox) { old(self)@.push(bbox) } else { old(self)@ },
    {
        if bbox.width > 0 && bbox.height > 0 && bbox.confidence <= SCALE {
            self.boxes.push(bbox);
        }
    }

    pub fn extend(&mut self, other: BBoxCollection)
        requires
            old(self).wf(),
            other.wf(),
        ensures
            final(self).wf(),
            final(self)@ == old(self)@ + other@,
    {
        let mut o = other.boxes;
        self.boxes.append(&mut o);
    }

    pub fn as_slice(&self) -> (r: &[BBox])
        ensures
            r@ == self@,
    {
        self.boxes.as_slice()
    }

    pub fn len(&self) -> (r: usize)
        ensures
            r == self@.len(),
    {
        self.boxes.len()
    }

    pub fn is_empty(&self) -> (r: bool)
        ensures
            r == (self@.len() == 0),
    {
        self.boxes.len() == 0
    }

    /// Sorts by descending confidence, stably.
    pub fn sort_by_confidence(&mut self)
        requires
            old(self).wf(),
        ensures
            final(self).wf(),
            final(self)@ == sorted_by_confidence(old(self)@),
    {
        let mut v: Vec<BBox> = Vec::new();
        std::mem::swap(&mut v, &mut self.boxes);
        let sorted = sort_boxes(v);
        proof {
            crate::sorting::lemma_sort_elements(old(self)@, by_confidence());
            assert forall|i: int| 0 <= i < sorted@.len() implies is_valid(#[trigger] sorted@[i]) by {
                assert(sorted@.contains(sorted@[i]));
                let j = choose|j: int| 0 <= j < old(self)@.len() && old(self)@[j] == sorted@[i];
            }
        }
        self.boxes = sorted;
    }

    /// Keeps the boxes whose confidence is at least `threshold`.
    pub fn filter_by_confidence(self, threshold: u32) -> (r: BBoxCollection)
        requires
            self.wf(),
        ensures
            r.wf(),
            r@ == self@.filter(|b: BBox| b.confidence >= threshold),
    {
        let ghost s = self.boxes@;
        let mut out: Vec<BBox> = Vec::new();
        for b in iter: self.boxes.into_iter()
            invariant
                iter.seq() == s,
                all_valid(s),
                out@ == s.take(iter.index() as int).filter(|b: BBox| b.confidence >= threshold),
                all_valid(out@),
        {
            proof {
                let n = iter.index() as int;
                assert(s.take(n + 1) =~= s.take(n).push(b));
                s.take(n).lemma_filter_push(b, |b: BBox| b.confidence >= threshold);
                assert(s[n] == b);
            }
            if b.confidence >= threshold {
                out.push(b);
            }
        }
        assert(s.take(s.len() as int) =~= s);
        BBoxCollection { boxes: out }
    }

    /// Keeps the boxes labelled `class_id`.
    pub fn filter_by_class(self, class_id: &str) -> (r: BBoxCollection)
        requires
            self.wf(),
        ensures
            r.wf(),
            r@ == self@.filter(|b: BBox| b.class_id@ == class_id@),
    {
        let wanted = class_id.to_owned();
        let ghost s = self.boxes@;
        let mut out: Vec<BBox> = Vec::new();
        for b in iter: self.boxes.into_iter()
            invariant
                iter.seq() == s,
                all_valid(s),
                wanted@ == class_id@,
                out@ == s.take(iter.index() as int).filter(|b: BBox| b.class_id@ == class_id@),
                all_valid(out@),
        {
            proof {
                let n = iter.index() as int;
                assert(s.take(n + 1) =~= s.take(n).push(b));
                s.take(n).lemma_filter_push(b, |b: BBox| b.class_id@ == class_id@);
                assert(s[n] == b);
            }
            if b.class_id == wanted {
                out.push(b);
            }
        }
        assert(s.take(s.len() as int) =~= s);
        BBoxCollection { boxes: out }
    }

    /// The boxes of each class label, labels in order of first appearance.
    pub fn group_by_class(&self) -> (r: Vec<(String, Vec<&BBox>)>)
        ensures
            r@.len() == class_labels(self@).len(),
            forall|g: int|
                #![trigger r@[g]]
                0 <= g < r@.len() ==> {
                    let c = class_labels(self@)[g];
                    &&& r@[g].0@ == c
                    &&& r@[g].1@.len() == boxes_of_class(self@, c).len()
                    &&& forall|k: int|
                        0 <= k < r@[g].1@.len() ==> *r@[g].1@[k] == boxes_of_class(self@, c)[k]
                },
    {
        let ghost s = self.boxes@;
        let mut labels: Vec<String> = Vec::new();
        let mut i: usize = 0;
        while i < self.boxes.len()
            invariant
                i <= s.len(),
                s == self.boxes@,
                labels@.map_values(|l: String| l@) == class_labels(s.take(i as int)),
            decreases s.len() - i,
        {
            proof {
                assert(s.take(i + 1).drop_last() =~= s.take(i as int));
            }
            if !class_listed(&labels, &self.boxes[i].class_id) {
                let c = self.boxes[i].class_id.clone();
                labels.push(c);
                assert(labels@.map_values(|l: String| l@) =~= class_labels(s.take(i + 1)));
            } else {
                assert(labels@.map_values(|l: String| l@) =~= class_labels(s.take(i + 1)));
            }
            i = i + 1;
        }
        assert(s.take(s.len() as int) =~= s);
        let ghost labs = class_labels(s);
        let mut groups: Vec<(String, Vec<&BBox>)> = Vec::new();
        for label in it: labels.into_iter()
            invariant
                s == self.boxes@,
                it.seq().map_values(|l: String| l@) == labs,
                groups@.len() == it.index(),
                forall|g: int|
                    #![trigger groups@[g]]
                    0 <= g < groups@.len() ==> {
                        let c = labs[g];
                        &&& groups@[g].0@ == c
                        &&& groups@[g].1@.len() == boxes_of_class(s, c).len()
                        &&& forall|k: int|
                            0 <= k < groups@[g].1@.len() ==> *groups@[g].1@[k] == boxes_of_class(s, c)[k]
                    },
        {
            let ghost c = label@;
            let ghost g = it.index() as int;
            assert(labs[g] == c);
            let mut members: Vec<&BBox> = Vec::new();
            let mut j: usize = 0;
            while j < self.boxes.len()
                invariant
                    j <= s.len(),
                    s == self.boxes@,
                    label@ == c,
                    members@.len() == boxes_of_class(s.take(j as int), c).len(),
                    forall|k: int|
                        0 <= k < members@.len() ==> *members@[k] == boxes_of_class(s.take(j as int), c)[k],
                decreases s.len() - j,
            {
                proof {
                    assert(s.take(j + 1) =~= s.take(j as int).push(s[j as int]));
                    s.take(j as int).lemma_filter_push(s[j as int], has_class(c));
                }
                if self.boxes[j].class_id == label {
                    members.push(&self.boxes[j]);
                }
                j = j + 1;
            }
            assert(s.take(s.len() as int) =~= s);
            groups.push((label, members));
        }
        groups
    }

    /// Count, per-class counts and average / highest / lowest confidence;
    /// all three confidences are 0 for an empty collection.
    pub fn stats(&self) -> (r: BBoxStats)
        requires
            self.wf(),
        ensures
            r.total_boxes == self@.len(),
            r.class_counts@.len() == class_labels(self@).len(),
            forall|g: int|
                #![trigger r.class_counts@[g]]
                0 <= g < r.class_counts@.len() ==> r.class_counts@[g].0@ == class_labels(self@)[g]
                    && r.class_counts@[g].1 == boxes_of_class(self@, class_labels(self@)[g]).len(),
            r.avg_confidence == average_confidence(self@),
            r.max_confidence == max_confidence(self@),
            r.min_confidence == min_confidence(self@),
    {
        let ghost s = self.boxes@;
        let groups = self.group_by_class();
        let mut class_counts: Vec<(String, usize)> = Vec::new();
        let mut g: usize = 0;
        while g < groups.len()
            invariant
                g <= groups@.len(),
                class_counts@.len() == g,
                forall|h: int|
                    #![trigger class_counts@[h]]
                    0 <= h < g ==> class_counts@[h].0@ == groups@[h].0@ && class_counts@[h].1
                        == groups@[h].1@.len(),
            decreases groups@.len() - g,
        {
            let name = groups[g].0.clone();
            class_counts.push((name, groups[g].1.len()));
            g = g + 1;
        }
        let mut sum: u128 = 0;
        let mut max_c: u32 = 0;
        let mut min_c: u32 = 0;
        let mut i: usize = 0;
        while i < self.boxes.len()
            invariant
                i <= s.len(),
                s == self.boxes@,
                all_valid(s),
                sum == confidence_sum(s.take(i as int)),
                sum <= i * SCALE,
                max_c == max_confidence(s.take(i as int)),
                min_c == min_confidence(s.take(i as int)),
            decreases s.len() - i,
        {
            proof {
                assert(s.take(i + 1).drop_last() =~= s.take(i as int));
                assert(s.take(i + 1).last() == s[i as int]);
                assert(is_valid(s[i as int]));
            }
            let c = self.boxes[i].confidence;
            sum = sum + c as u128;
            if c > max_c {
                max_c = c;
            }
            if i == 0 || c < min_c {
                min_c = c;
            }
            i = i + 1;
        }
        assert(s.take(s.len() as int) =~= s);
        let n = self.boxes.len();
        let avg: u32 = if n == 0 {
            0
        } else {
            proof {
                let sm = sum as int;
                let nn = n as int;
                assert(sm / nn <= SCALE) by (nonlinear_arith)
                    requires
                        0 <= sm <= nn * SCALE,
                        nn > 0,
                ;
            }
            (sum / (n as u128)) as u32
        };
        BBoxStats {
            total_boxes: n,
            class_counts,
            avg_confidence: avg,
            max_confidence: max_c,
            min_confidence: min_c,
        }
    }
}

impl Default for BBoxCollection {
    fn default() -> (r: BBoxCollection)
        ensures
            r.wf(),
            r@ == Seq::<BBox>::empty(),
    {
        BBoxCollection::new()
    }
}

impl BBoxCollection {
    /// A copy whose boxes have the same models, in the same order.
    pub fn duplicate(&self) -> (r: BBoxCollection)
        requires
            self.wf(),
        ensures
            r.wf(),
            r@.len() == self@.len(),
            forall|i: int| 0 <= i < r@.len() ==> (#[trigger] r@[i])@ == self@[i]@,
    {
        let mut out: Vec<BBox> = Vec::new();
        let mut i: usize = 0;
        while i < self.boxes.len()
            invariant
                i <= self.boxes@.len(),
                all_valid(self.boxes@),
                out@.len() == i,
                all_valid(out@),
                forall|k: int| 0 <= k < i ==> (#[trigger] out@[k])@ == self.boxes@[k]@,
            decreases self.boxes@.len() - i,
        {
            let b = self.boxes[i].duplicate();
            assert(is_valid(self.boxes@[i as int]));
            out.push(b);
            i = i + 1;
        }
        BBoxCollection { boxes: out }
    }
}

} // verus!
