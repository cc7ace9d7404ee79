//! Configuration of a detection run, passed explicitly to each run.
use vstd::prelude::*;

verus! {

/// How a template is scored against the image.
#[derive(Debug, Clone, Copy, PartialEq, Eq, Structural)]
pub enum MatchingMethod {
    /// Normalized cross-correlation.
    CCorrNormed,
    /// Correlation coefficient, robust to linear lighting changes.
    CCoeffNormed,
    /// Normalized squared difference: lower is better.
    SqDiffNormed,
    /// Raw squared difference: lower is better.
    SqDiff,
}

impl MatchingMethod {
    /// Whether a lower score means a better match.
    pub fn is_inverted(&self) -> (r: bool)
        ensures
            r == (*self == MatchingMethod::SqDiff || *self == MatchingMethod::SqDiffNormed),
    {
        match self {
            MatchingMethod::SqDiff | MatchingMethod::SqDiffNormed => true,
            _ => false,
        }
    }
}

/// Image preprocessing applied before matching.
#[derive(Debug, Clone, Copy, PartialEq, Eq, Structural)]
pub enum PreprocessingMethod {
    /// The image is matched as it is.
    Unprocessed,
    HistogramEqualization,
    Laplacian,
    SobelMagnitude,
    Canny,
    CLAHE,
}

#[derive(Debug, Clone, Copy, PartialEq, Eq, Structural)]
pub struct VisualizationConfig {
    pub draw_bboxes: bool,
    pub draw_labels: bool,
    pub draw_confidence: bool,
    pub save_intermediate: bool,
}

/// Center ("player atom") detection: a box whose center lies within
/// `center_tolerance * min(width, height)` of the frame centroid.
#[derive(Debug)]
pub struct PlayerAtomConfig {
    /// Fraction of the smaller frame side, in millionths; at most 1.
    pub center_tolerance: u32,
    pub size_threshold: (u32, u32),
}

#[derive(Debug)]
pub struct RingDetectionConfig {
    /// Capacity of the ring: ordered members beyond it are discarded.
    pub max_ring_elements: usize,
    /// In millionths of a radian.
    pub angle_tolerance: u32,
    /// Ring radius bounds in pixels.
    pub radius_range: (u32, u32),
}

#[derive(Debug)]
pub struct DetectionConfig {
    pub template_dirs: Vec<String>,
    pub elements_file: String,
    pub output_dir: String,
    /// IoU threshold of the global suppression, in millionths; at most 1.
    pub global_nms_threshold: u32,
    pub player_atom_detection: PlayerAtomConfig,
    pub ring_detection: RingDetectionConfig,
    pub visualization: VisualizationConfig,
}

impl Default for DetectionConfig {
    fn default() -> (r: DetectionConfig)
        ensures
            r.template_dirs@.map_values(|d: String| d@) == seq!["assets/png"@],
            r.elements_file@ == "assets/txt/elements.txt"@,
            r.output_dir@ == "assets/png/outputs"@,
            r.global_nms_threshold == 200_000,
            r.player_atom_detection.center_tolerance == 100_000,
            r.player_atom_detection.size_threshold == (30u32, 200u32),
            r.ring_detection.max_ring_elements == 18,
            r.ring_detection.angle_tolerance == 200_000,
            r.ring_detection.radius_range == (100u32, 400u32),
            r.visualization == (VisualizationConfig {
                draw_bboxes: true,
                draw_labels: true,
                draw_confidence: true,
                save_intermediate: false,
            }),
    {
        let mut template_dirs: Vec<String> = Vec::new();
        template_dirs.push("assets/png".to_owned());
        assert(template_dirs@.map_values(|d: String| d@) =~= seq!["assets/png"@]);
        DetectionConfig {
            template_dirs,
            elements_file: "assets/txt/elements.txt".to_owned(),
            output_dir: "assets/png/outputs".to_owned(),
            global_nms_threshold: 200_000,
            player_atom_detection: PlayerAtomConfig { center_tolerance: 100_000, size_threshold: (30, 200) },
            ring_detection: RingDetectionConfig {
                max_ring_elements: 18,
                angle_tolerance: 200_000,
                radius_range: (100, 400),
            },
            visualization: VisualizationConfig {
                draw_bboxes: true,
                draw_labels: true,
                draw_confidence: true,
                save_intermediate: false,
            },
        }
    }
}

} // verus!
