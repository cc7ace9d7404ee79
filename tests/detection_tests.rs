use atomas::bbox::{BBox, BBoxCollection};
use atomas::classify::{is_near_center, order_by_angle, partition_by_center, select_center};
use atomas::config::{DetectionConfig, MatchingMethod};
use atomas::detection::{build_ring, label_boxes, DetectionError, GameStateDetector};
use atomas::elements::{Data, Element, ElementType, Id};
use atomas::template::TemplateLoader;

fn element(symbol: char, name: &str, number: u32) -> Element {
    Element { id: Id::Single(symbol), element_type: ElementType::Periodic(number), name: name.to_string(), rgb: (1, 2, 3) }
}

fn pair(name: &str, x: i32, y: i32, conf: u32) -> (Element, BBox) {
    (element('X', name, 1), BBox::new(x, y, 10, 10, conf).with_class(name.to_string(), (0, 0, 0)))
}

fn names(pairs: &[(Element, BBox)]) -> Vec<String> {
    pairs.iter().map(|p| p.0.name.clone()).collect()
}

#[test]
fn test_detector_creation() {
    let config = DetectionConfig::default();
    let _detector = GameStateDetector::new(config);
}

#[test]
fn detector_uses_configured_template_dirs() {
    let detector = GameStateDetector::new(DetectionConfig::default());
    assert_eq!(detector.template_loader().template_dirs(), &vec!["assets/png".to_string()]);
    assert_eq!(detector.config().global_nms_threshold, 200_000);
    assert_eq!(detector.config().ring_detection.max_ring_elements, 18);
}

#[test]
fn scenario_center_candidate_and_ring_member() {
    // frame 100x100, tolerance 0.1: radius 10
    let centered = BBox::new(45, 45, 10, 10, 1);
    let corner = BBox::new(85, 85, 10, 10, 1);
    assert_eq!(centered.center(), (50, 50));
    assert_eq!(corner.center(), (90, 90));
    assert!(is_near_center(&centered, 100, 100, 100_000));
    assert!(!is_near_center(&corner, 100, 100, 100_000));
    // distance exactly 10 is not below the radius
    let edge = BBox::new(55, 45, 10, 10, 1);
    assert!(!is_near_center(&edge, 100, 100, 100_000));
    let inside = BBox::new(54, 45, 10, 10, 1);
    assert!(is_near_center(&inside, 100, 100, 100_000));
}

#[test]
fn partition_counts_add_up() {
    let pairs = vec![
        pair("a", 45, 45, 500_000),
        pair("b", 85, 85, 500_000),
        pair("c", 46, 44, 900_000),
        pair("d", 0, 0, 100_000),
        pair("e", 44, 46, 900_000),
    ];
    let n = pairs.len();
    let (ring, candidates) = partition_by_center(pairs, 100, 100, 100_000);
    assert_eq!(names(&ring), vec!["b", "d"]);
    assert_eq!(names(&candidates), vec!["a", "c", "e"]);
    assert_eq!(ring.len() + candidates.len(), n);
    let chosen = select_center(candidates).expect("a candidate");
    // highest confidence, first of the tied ones
    assert_eq!(chosen.0.name, "c");
    assert!(select_center(Vec::new()).is_none());
}

#[test]
fn angular_order_is_deterministic_and_starts_after_minus_pi() {
    let make = || {
        vec![
            pair("left", 5, 45, 1),
            pair("bottom", 45, 85, 1),
            pair("right", 85, 45, 1),
            pair("top", 45, 5, 1),
            pair("top-right", 75, 15, 1),
        ]
    };
    let first = order_by_angle(make(), 100, 100, 18);
    let second = order_by_angle(make(), 100, 100, 18);
    assert_eq!(names(&first), names(&second));
    assert_eq!(names(&first), vec!["top", "top-right", "right", "bottom", "left"]);
    let cut = order_by_angle(make(), 100, 100, 2);
    assert_eq!(names(&cut), vec!["top", "top-right"]);
}

#[test]
fn equal_angles_keep_input_order() {
    let pairs = vec![pair("far", 85, 45, 1), pair("near", 65, 45, 1)];
    assert_eq!(names(&order_by_angle(pairs, 100, 100, 18)), vec!["far", "near"]);
}

fn data() -> Data {
    Data { elements: vec![element('H', "Hydrogen", 1), element('C', "Carbon", 6), element('O', "Oxygen", 8)] }
}

fn detections() -> BBoxCollection {
    let mut c = BBoxCollection::new();
    // center element
    c.push(BBox::new(45, 45, 10, 10, 900_000).with_class("Carbon".to_string(), (0, 0, 0)));
    // ring members
    c.push(BBox::new(45, 0, 10, 10, 800_000).with_class("Hydrogen".to_string(), (0, 0, 0)));
    c.push(BBox::new(90, 45, 10, 10, 700_000).with_class("Oxygen".to_string(), (0, 0, 0)));
    // duplicate of the top one, suppressed
    c.push(BBox::new(46, 0, 10, 10, 600_000).with_class("Oxygen".to_string(), (0, 0, 0)));
    // label with no element
    c.push(BBox::new(0, 45, 10, 10, 500_000).with_class("Unknown".to_string(), (0, 0, 0)));
    c
}

#[test]
fn pipeline_end_to_end() {
    let detector = GameStateDetector::new(DetectionConfig::default());
    let result = detector.detect_from_detections(detections(), &data(), 100, 100, 12).expect("valid configuration");
    assert_eq!(result.all_detections.len(), 4);
    assert_eq!(names(&result.ring_elements), vec!["Hydrogen", "Oxygen"]);
    assert_eq!(result.player_atom.as_ref().map(|p| p.0.name.clone()), Some("Carbon".to_string()));
    let stats = &result.confidence_stats;
    assert_eq!(stats.total_detections, 4);
    assert_eq!(stats.ring_detections, 2);
    assert_eq!(stats.player_detections, 1);
    assert_eq!(stats.avg_confidence, 725_000);
    assert_eq!(stats.processing_time_ms, 12);

    assert!(!result.has_enough_ring_elements());
    let ring = build_ring(result.ring_elements);
    let mut it = ring.iter();
    assert_eq!(it.next().map(|e| e.name), Some("Hydrogen".to_string()));
    assert_eq!(it.next().map(|e| e.name), Some("Oxygen".to_string()));
    assert!(it.next().is_none());
}

#[test]
fn pipeline_rejects_out_of_range_configuration() {
    let mut config = DetectionConfig::default();
    config.global_nms_threshold = 1_000_001;
    let detector = GameStateDetector::new(config);
    assert_eq!(
        detector.detect_from_detections(detections(), &data(), 100, 100, 0).err(),
        Some(DetectionError::NmsThresholdOutOfRange)
    );
    let mut config = DetectionConfig::default();
    config.player_atom_detection.center_tolerance = 2_000_000;
    let detector = GameStateDetector::new(config);
    assert_eq!(
        detector.detect_from_detections(detections(), &data(), 100, 100, 0).err(),
        Some(DetectionError::CenterToleranceOutOfRange)
    );
}

#[test]
fn no_center_found_is_not_an_error() {
    let mut c = BBoxCollection::new();
    c.push(BBox::new(0, 0, 10, 10, 900_000).with_class("Hydrogen".to_string(), (0, 0, 0)));
    let detector = GameStateDetector::new(DetectionConfig::default());
    let result = detector.detect_from_detections(c, &data(), 100, 100, 0).expect("valid configuration");
    assert!(result.player_atom.is_none());
    assert!(!result.has_enough_ring_elements());
    assert_eq!(result.confidence_stats.player_detections, 0);
    assert_eq!(result.ring_elements.len(), 1);
}

#[test]
fn labelling_uses_first_element_with_the_name() {
    let boxes = vec![
        BBox::new(0, 0, 1, 1, 1).with_class("Oxygen".to_string(), (0, 0, 0)),
        BBox::new(0, 0, 1, 1, 1).with_class("Nothing".to_string(), (0, 0, 0)),
    ];
    let pairs = label_boxes(boxes, &data());
    assert_eq!(names(&pairs), vec!["Oxygen"]);
    assert_eq!(pairs[0].0.id, Id::Single('O'));
    assert!(data().find("Carbon").is_some());
    assert!(data().find("carbon").is_none());
}

#[test]
fn template_names_use_case_variants() {
    let e = element('H', "He", 2);
    assert_eq!(e.get_templates(), vec!["He", "he", "_He", "_he"]);
    let loader = TemplateLoader::new().add_template_dir("dir").add_extension("gif".to_string());
    assert_eq!(loader.supported_extensions(), &vec!["png", "jpg", "jpeg", "bmp", "gif"]);
    let candidates = loader.generate_template_candidates("He");
    assert_eq!(candidates.len(), 25);
    assert_eq!(&candidates[0..5], &["He.png", "he.png", "_He.png", "_he.png", "HE.png"]);
    assert_eq!(candidates[24], "HE.gif");
    assert!(loader.supports_extension("PNG"));
    assert!(loader.supports_extension("gif"));
    assert!(!loader.supports_extension("tiff"));
}

#[test]
fn inverted_matching_methods() {
    assert!(MatchingMethod::SqDiff.is_inverted());
    assert!(MatchingMethod::SqDiffNormed.is_inverted());
    assert!(!MatchingMethod::CCoeffNormed.is_inverted());
    assert!(!MatchingMethod::CCorrNormed.is_inverted());
}

#[test]
fn three_ring_members_are_enough() {
    let mut c = BBoxCollection::new();
    c.push(BBox::new(45, 0, 10, 10, 800_000).with_class("Hydrogen".to_string(), (0, 0, 0)));
    c.push(BBox::new(90, 45, 10, 10, 700_000).with_class("Oxygen".to_string(), (0, 0, 0)));
    c.push(BBox::new(45, 90, 10, 10, 600_000).with_class("Carbon".to_string(), (0, 0, 0)));
    let detector = GameStateDetector::new(DetectionConfig::default());
    let result = detector.detect_from_detections(c, &data(), 100, 100, 0).expect("valid configuration");
    assert_eq!(names(&result.ring_elements), vec!["Hydrogen", "Oxygen", "Carbon"]);
    assert!(result.has_enough_ring_elements());
}
