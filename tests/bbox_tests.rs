use atomas::bbox::{BBox, BBoxCollection};
use atomas::nms::NonMaxSuppressionUtils;
use atomas::SCALE;

fn labelled(x: i32, y: i32, w: i32, h: i32, conf: u32, class: &str) -> BBox {
    BBox::new(x, y, w, h, conf).with_class(class.to_string(), (255, 0, 0))
}

fn confidences(c: &BBoxCollection) -> Vec<u32> {
    c.as_slice().iter().map(|b| b.confidence).collect()
}

#[test]
fn test_bbox_iou() {
    let box1 = BBox::new(0, 0, 10, 10, 900_000);
    let box2 = BBox::new(5, 5, 10, 10, 800_000);

    let iou = box1.iou(&box2);
    assert!(iou > 0 && iou < SCALE);
}

#[test]
fn test_nms() {
    let mut collection = BBoxCollection::new();
    collection.push(BBox::new(0, 0, 10, 10, 900_000).with_class("A".to_string(), (255, 0, 0)));
    collection.push(BBox::new(2, 2, 10, 10, 800_000).with_class("A".to_string(), (255, 0, 0)));
    collection.push(BBox::new(20, 20, 10, 10, 700_000).with_class("B".to_string(), (0, 255, 0)));

    // the two A boxes share 64 of 136 units of area: IoU about 0.47
    assert_eq!(collection.as_slice()[0].iou(&collection.as_slice()[1]), 470_588);
    let suppressing = BBoxCollection::from_vec(collection.as_slice().iter().map(|b| b.duplicate()).collect());
    let result = collection.apply_nms(500_000);
    assert_eq!(result.len(), 3);
    let result = suppressing.apply_nms(400_000);
    assert_eq!(result.len(), 2);
    assert_eq!(confidences(&result), vec![900_000, 700_000]);
}

#[test]
fn iou_exact_values() {
    let a = BBox::new(0, 0, 10, 10, 0);
    let b = BBox::new(5, 5, 10, 10, 0);
    // intersection 25, union 175
    assert_eq!(a.iou(&b), 142_857);
    assert_eq!(b.iou(&a), 142_857);
    assert_eq!(a.iou(&a), SCALE);
    let far = BBox::new(100, 100, 10, 10, 0);
    assert_eq!(a.iou(&far), 0);
    // touching edges do not overlap
    let touching = BBox::new(10, 0, 10, 10, 0);
    assert_eq!(a.iou(&touching), 0);
}

#[test]
fn overlaps_is_strictly_above_threshold() {
    let a = BBox::new(0, 0, 20, 10, 0);
    let b = BBox::new(5, 0, 20, 10, 0);
    // IoU = 150 / 250 = 0.6 exactly
    assert!(a.overlaps(&b, 599_999));
    assert!(!a.overlaps(&b, 600_000));
    assert!(!a.overlaps(&b, 700_000));
}

#[test]
fn area_and_center() {
    let b = BBox::new(3, 4, 10, 7, 0);
    assert_eq!(b.area(), 70);
    assert_eq!(b.center(), (8, 7));
}

#[test]
fn scenario_global_and_class_nms() {
    let make = || {
        let mut c = BBoxCollection::new();
        c.push(labelled(0, 0, 20, 10, 900_000, "A"));
        c.push(labelled(5, 0, 20, 10, 800_000, "A"));
        c.push(labelled(100, 100, 20, 10, 700_000, "B"));
        c
    };
    let first = make();
    assert_eq!(first.as_slice()[0].iou(&first.as_slice()[1]), 600_000);

    let global = make().apply_global_nms(500_000);
    assert_eq!(confidences(&global), vec![900_000, 700_000]);
    assert_eq!(global.as_slice()[0].class_id, "A");
    assert_eq!(global.as_slice()[1].class_id, "B");

    let per_class = make().apply_class_nms(500_000);
    assert_eq!(confidences(&per_class), vec![900_000, 700_000]);
    assert_eq!(per_class.as_slice()[1].class_id, "B");
}

#[test]
fn global_nms_suppresses_across_classes_class_nms_does_not() {
    let make = || {
        let mut c = BBoxCollection::new();
        c.push(labelled(0, 0, 10, 10, 900_000, "A"));
        c.push(labelled(1, 0, 10, 10, 800_000, "B"));
        c
    };
    assert_eq!(make().apply_global_nms(500_000).len(), 1);
    assert_eq!(make().apply_class_nms(500_000).len(), 2);
}

#[test]
fn nms_is_idempotent_on_example() {
    let make = || {
        let mut c = BBoxCollection::new();
        c.push(labelled(0, 0, 10, 10, 500_000, "A"));
        c.push(labelled(3, 0, 10, 10, 900_000, "A"));
        c.push(labelled(6, 0, 10, 10, 700_000, "B"));
        c.push(labelled(9, 0, 10, 10, 800_000, "B"));
        c.push(labelled(50, 50, 10, 10, 100_000, "C"));
        c
    };
    let once = make().apply_nms(300_000);
    let twice = make().apply_nms(300_000).apply_nms(300_000);
    assert_eq!(confidences(&once), confidences(&twice));
    assert_eq!(confidences(&once), vec![900_000, 800_000, 100_000]);
}

#[test]
fn nms_keeps_pairs_at_or_below_threshold_and_the_best_box() {
    let mut c = BBoxCollection::new();
    let specs = [(0, 0, 600_000), (4, 1, 950_000), (8, 2, 300_000), (2, 7, 800_000), (30, 30, 400_000)];
    for (x, y, conf) in specs {
        c.push(labelled(x, y, 10, 10, conf, "A"));
    }
    let kept = c.apply_nms(200_000);
    let boxes = kept.as_slice();
    assert_eq!(boxes[0].confidence, 950_000);
    for i in 0..boxes.len() {
        for j in 0..boxes.len() {
            if i != j {
                assert!(!boxes[i].overlaps(&boxes[j], 200_000));
            }
        }
    }
}

#[test]
fn nms_of_empty_collection_is_empty() {
    assert!(BBoxCollection::new().apply_nms(500_000).is_empty());
    assert!(BBoxCollection::new().apply_class_nms(500_000).is_empty());
    assert!(NonMaxSuppressionUtils::apply_global_nms(BBoxCollection::new(), 0).is_empty());
}

#[test]
fn invalid_boxes_are_dropped_at_ingestion() {
    let mut c = BBoxCollection::new();
    c.push(BBox::new(0, 0, 0, 10, 500_000));
    c.push(BBox::new(0, 0, 10, -1, 500_000));
    c.push(BBox::new(0, 0, 10, 10, SCALE + 1));
    c.push(BBox::new(0, 0, 10, 10, SCALE));
    assert_eq!(c.len(), 1);
    let v = BBoxCollection::from_vec(vec![BBox::new(0, 0, 1, 1, 1), BBox::new(0, 0, 0, 0, 1)]);
    assert_eq!(v.len(), 1);
}

#[test]
fn sort_is_descending_and_stable() {
    let mut c = BBoxCollection::new();
    c.push(labelled(0, 0, 1, 1, 500_000, "first"));
    c.push(labelled(0, 0, 1, 1, 900_000, "top"));
    c.push(labelled(0, 0, 1, 1, 500_000, "second"));
    c.sort_by_confidence();
    let labels: Vec<&str> = c.as_slice().iter().map(|b| b.class_id.as_str()).collect();
    assert_eq!(labels, vec!["top", "first", "second"]);
}

#[test]
fn filters_keep_order() {
    let make = || {
        let mut c = BBoxCollection::new();
        c.push(labelled(0, 0, 1, 1, 100_000, "A"));
        c.push(labelled(0, 0, 1, 1, 600_000, "B"));
        c.push(labelled(0, 0, 1, 1, 500_000, "A"));
        c
    };
    assert_eq!(confidences(&make().filter_by_confidence(500_000)), vec![600_000, 500_000]);
    assert_eq!(confidences(&make().filter_by_class("A")), vec![100_000, 500_000]);
    let mut other = BBoxCollection::new();
    other.push(labelled(0, 0, 1, 1, 1, "C"));
    let mut c = make();
    c.extend(other);
    assert_eq!(c.len(), 4);
}

#[test]
fn group_and_stats() {
    let mut c = BBoxCollection::new();
    c.push(labelled(0, 0, 1, 1, 100_000, "B"));
    c.push(labelled(0, 0, 1, 1, 600_000, "A"));
    c.push(labelled(0, 0, 1, 1, 500_000, "B"));
    let groups = c.group_by_class();
    assert_eq!(groups.len(), 2);
    assert_eq!(groups[0].0, "B");
    assert_eq!(groups[0].1.len(), 2);
    assert_eq!(groups[0].1[1].confidence, 500_000);
    assert_eq!(groups[1].0, "A");
    let stats = c.stats();
    assert_eq!(stats.total_boxes, 3);
    assert_eq!(stats.class_counts, vec![("B".to_string(), 2), ("A".to_string(), 1)]);
    assert_eq!(stats.avg_confidence, 400_000);
    assert_eq!(stats.max_confidence, 600_000);
    assert_eq!(stats.min_confidence, 100_000);
}

#[test]
fn stats_of_empty_collection_are_zero() {
    let stats = BBoxCollection::new().stats();
    assert_eq!(stats.total_boxes, 0);
    assert!(stats.class_counts.is_empty());
    assert_eq!((stats.avg_confidence, stats.max_confidence, stats.min_confidence), (0, 0, 0));
}

#[test]
fn average_confidence_rounds_down() {
    let mut c = BBoxCollection::new();
    c.push(BBox::new(0, 0, 1, 1, 1));
    c.push(BBox::new(0, 0, 1, 1, 2));
    assert_eq!(c.stats().avg_confidence, 1);
}

#[test]
fn metadata_replaces_existing_key() {
    let b = BBox::new(0, 0, 1, 1, 0)
        .with_metadata("k".to_string(), "1".to_string())
        .with_metadata("j".to_string(), "2".to_string())
        .with_metadata("k".to_string(), "3".to_string());
    assert_eq!(b.metadata, vec![("k".to_string(), "3".to_string()), ("j".to_string(), "2".to_string())]);
    let d = b.duplicate();
    assert_eq!(d.metadata, b.metadata);
}

#[test]
fn class_nms_keeps_the_best_box_of_each_class() {
    let mut c = BBoxCollection::new();
    c.push(labelled(0, 0, 10, 10, 300_000, "A"));
    c.push(labelled(1, 0, 10, 10, 800_000, "A"));
    c.push(labelled(0, 1, 10, 10, 600_000, "B"));
    c.push(labelled(1, 1, 10, 10, 900_000, "B"));
    let kept = c.apply_class_nms(500_000);
    assert_eq!(confidences(&kept), vec![800_000, 900_000]);
}
