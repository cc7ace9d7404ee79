//! One detection run: suppression, labelling, classification, ordering and
//! summary statistics over detections that are already in memory.
use vstd::prelude::*;

use crate::bbox::{average_confidence, BBox, BBoxCollection};
use crate::classify::{
    angular_order, best_candidate, center_candidates, order_by_angle, partition_by_center,
    ring_members, select_center,
};
use crate::config::DetectionConfig;
use crate::elements::{first_named, Data, Element};
use crate::nms::nms;
use crate::ring::CircularList;
use crate::template::{strings_view, TemplateLoader};
use crate::SCALE;

verus! {

/// A configuration value outside [0, 1]; the run stops before any work.
#[derive(Debug, Clone, Copy, PartialEq, Eq, Structural)]
pub enum DetectionError {
    NmsThresholdOutOfRange,
    CenterToleranceOutOfRange,
}

#[derive(Debug)]
pub struct DetectionStats {
    pub total_detections: usize,
    pub ring_detections: usize,
    pub player_detections: usize,
    /// Mean confidence of the kept detections, in millionths.
    pub avg_confidence: u32,
    pub processing_time_ms: u64,
}

#[derive(Debug)]
pub struct DetectionResult {
    /// Ring members in angular order.
    pub ring_elements: Vec<(Element, BBox)>,
    /// The chosen center element, if any box was near the centroid.
    pub player_atom: Option<(Element, BBox)>,
    /// Every detection kept by the global suppression.
    pub all_detections: BBoxCollection,
    pub confidence_stats: DetectionStats,
}

/// Fewest ring members for which a detection is taken as it is, rather than
/// retried with other matcher settings.
pub const MIN_RING_ELEMENTS: usize = 3;

impl DetectionResult {
    /// Whether the ring has at least `MIN_RING_ELEMENTS` members.
    pub fn has_enough_ring_elements(&self) -> (r: bool)
        ensures
            r == (self.ring_elements@.len() >= MIN_RING_ELEMENTS),
    {
        self.ring_elements.len() >= MIN_RING_ELEMENTS
    }
}

/// Each box paired with the first element named by its class label; boxes
/// whose label names no element are left out.
pub open spec fn labelled(s: Seq<BBox>, elems: Seq<Element>) -> Seq<(Element, BBox)>
    decreases s.len(),
{
    if s.len() == 0 {
        Seq::empty()
    } else {
        let rest = labelled(s.drop_last(), elems);
        match first_named(elems, s.last().class_id@) {
            Some(i) => rest.push((elems[i], s.last())),
            None => rest,
        }
    }
}

/// Holds the configuration of detection runs and where templates are looked for.
#[derive(Debug)]
pub struct GameStateDetector {
    config: DetectionConfig,
    template_loader: TemplateLoader,
}

impl GameStateDetector {
    pub closed spec fn spec_config(&self) -> &DetectionConfig {
        &self.config
    }

    pub closed spec fn spec_loader(&self) -> &TemplateLoader {
        &self.template_loader
    }

    /// A detector whose template loader searches the configured directories.
    pub fn new(config: DetectionConfig) -> (r: GameStateDetector)
        ensures
            *r.spec_config() == config,
            r.spec_loader().dirs() == strings_view(config.template_dirs@),
            r.spec_loader().extensions() == TemplateLoader::new_extensions(),
    {
        let mut template_loader = TemplateLoader::new();
        let mut i: usize = 0;
        while i < config.template_dirs.len()
            invariant
                i <= config.template_dirs@.len(),
                template_loader.dirs() == strings_view(config.template_dirs@.take(i as int)),
                template_loader.extensions() == TemplateLoader::new_extensions(),
            decreases config.template_dirs@.len() - i,
        {
            template_loader = template_loader.add_template_dir(config.template_dirs[i].as_str());
            assert(strings_view(config.template_dirs@.take(i + 1)) =~= strings_view(
                config.template_dirs@.take(i as int),
            ).push(config.template_dirs@[i as int]@));
            i = i + 1;
        }
        assert(config.template_dirs@.take(config.template_dirs@.len() as int) =~= config.template_dirs@);
        GameStateDetector { config, template_loader }
    }

    pub fn config(&self) -> (r: &DetectionConfig)
        ensures
            r == self.spec_config(),
    {
        &self.config
    }

    pub fn template_loader(&self) -> (r: &TemplateLoader)
        ensures
            r == self.spec_loader(),
    {
        &self.template_loader
    }

    /// Splits labelled boxes by distance to the frame centroid: the best
    /// center candidate becomes the center, the other candidates are dropped,
    /// and the ring members come back in angular order, at most
    /// `max_ring_elements` of them.
    pub fn classify_detections(
        &self,
        element_bbox_pairs: Vec<(Element, BBox)>,
        image_width: u32,
        image_height: u32,
    ) -> (r: (Vec<(Element, BBox)>, Option<(Element, BBox)>))
        requires
            self.spec_config().player_atom_detection.center_tolerance <= SCALE,
        ensures
            r.0@ == angular_order(
                ring_members(
                    element_bbox_pairs@,
                    image_width,
                    image_height,
                    self.spec_config().player_atom_detection.center_tolerance,
                ),
                image_width,
                image_height,
                self.spec_config().ring_detection.max_ring_elements,
            ),
            r.1 == best_candidate(
                center_candidates(
                    element_bbox_pairs@,
                    image_width,
                    image_height,
                    self.spec_config().player_atom_detection.center_tolerance,
                ),
            ),
    {
        let tolerance = self.config.player_atom_detection.center_tolerance;
        let (ring, candidates) = partition_by_center(element_bbox_pairs, image_width, image_height, tolerance);
        let player_atom = select_center(candidates);
        let ring = order_by_angle(ring, image_width, image_height, self.config.ring_detection.max_ring_elements);
        (ring, player_atom)
    }

    /// The pipeline over raw detections of one frame: global suppression,
    /// labelling with reference data, classification, angular ordering and
    /// statistics. Fails, producing nothing, when the suppression threshold
    /// or the center tolerance lies outside [0, 1].
    pub fn detect_from_detections(
        &self,
        detections: BBoxCollection,
        elements_data: &Data,
        image_width: u32,
        image_height: u32,
        processing_time_ms: u64,
    ) -> (r: Result<DetectionResult, DetectionError>)
        requires
            detections.wf(),
        ensures
            self.spec_config().global_nms_threshold > SCALE ==> r == Err::<DetectionResult, DetectionError>(
                DetectionError::NmsThresholdOutOfRange,
            ),
            self.spec_config().global_nms_threshold <= SCALE
                && self.spec_config().player_atom_detection.center_tolerance > SCALE ==> r == Err::<
                DetectionResult,
                DetectionError,
            >(DetectionError::CenterToleranceOutOfRange),
            r is Ok <==> (self.spec_config().global_nms_threshold <= SCALE
                && self.spec_config().player_atom_detection.center_tolerance <= SCALE),
            r matches Ok(res) ==> {
                let kept = nms(detections@, self.spec_config().global_nms_threshold);
                let tolerance = self.spec_config().player_atom_detection.center_tolerance;
                let pairs = labelled(kept, elements_data.elements@);
                &&& res.all_detections.wf()
                &&& res.all_detections@.len() == kept.len()
                &&& forall|i: int|
                    0 <= i < kept.len() ==> (#[trigger] res.all_detections@[i])@ == kept[i]@
                &&& res.ring_elements@ == angular_order(
                    ring_members(pairs, image_width, image_height, tolerance),
                    image_width,
                    image_height,
                    self.spec_config().ring_detection.max_ring_elements,
                )
                &&& res.player_atom == best_candidate(
                    center_candidates(pairs, image_width, image_height, tolerance),
                )
                &&& res.confidence_stats.total_detections == kept.len()
                &&& res.confidence_stats.ring_detections == res.ring_elements@.len()
                &&& res.confidence_stats.player_detections == if res.player_atom is Some {
                    1usize
                } else {
                    0usize
                }
                &&& res.confidence_stats.avg_confidence == average_confidence(kept)
                &&& res.confidence_stats.processing_time_ms == processing_time_ms
            },
    {
        if self.config.global_nms_threshold > SCALE {
            return Err(DetectionError::NmsThresholdOutOfRange);
        }
        if self.config.player_atom_detection.center_tolerance > SCALE {
            return Err(DetectionError::CenterToleranceOutOfRange);
        }
        let kept = detections.apply_global_nms(self.config.global_nms_threshold);
        let all_detections = kept.duplicate();
        let total_detections = kept.len();
        let avg_confidence = kept.stats().avg_confidence;
        let pairs = label_boxes(kept.into_vec(), elements_data);
        let (ring_elements, player_atom) = self.classify_detections(pairs, image_width, image_height);
        let confidence_stats = DetectionStats {
            total_detections,
            ring_detections: ring_elements.len(),
            player_detections: if player_atom.is_some() { 1 } else { 0 },
            avg_confidence,
            processing_time_ms,
        };
        Ok(DetectionResult { ring_elements, player_atom, all_detections, confidence_stats })
    }
}

/// Pairs each box with the first element named by its label (see `labelled`).
pub fn label_boxes(boxes: Vec<BBox>, elements_data: &Data) -> (r: Vec<(Element, BBox)>)
    ensures
        r@ == labelled(boxes@, elements_data.elements@),
{
    let ghost s = boxes@;
    let mut pairs: Vec<(Element, BBox)> = Vec::new();
    for b in iter: boxes.into_iter()
        invariant
            iter.seq() == s,
            pairs@ == labelled(s.take(iter.index() as int), elements_data.elements@),
    {
        proof {
            let n = iter.index() as int;
            assert(s.take(n + 1).drop_last() =~= s.take(n));
            assert(s.take(n + 1).last() == b);
        }
        match elements_data.find(b.class_id.as_str()) {
            Some(e) => {
                let element = e.clone();
                pairs.push((element, b));
            },
            None => {},
        }
    }
    assert(s.take(s.len() as int) =~= s);
    pairs
}

/// The ring handed to the game logic: the elements of the ordered ring
/// members, in that order.
pub fn build_ring(ring_elements: Vec<(Element, BBox)>) -> (r: CircularList<Element>)
    ensures
        r.wf(),
        r.view() == ring_elements@.map_values(|p: (Element, BBox)| p.0),
{
    let ghost s = ring_elements@;
    let mut ring: CircularList<Element> = CircularList::new();
    for p in iter: ring_elements.into_iter()
        invariant
            iter.seq() == s,
            ring.wf(),
            ring.view() == s.take(iter.index() as int).map_values(|p: (Element, BBox)| p.0),
    {
        let ghost n = iter.index() as int;
        let len = ring.len();
        let (element, _bbox) = p;
        ring.insert(element, len);
        assert(ring.view() =~= s.take(n + 1).map_values(|p: (Element, BBox)| p.0));
    }
    assert(s.take(s.len() as int) =~= s);
    ring
}

} // verus!
