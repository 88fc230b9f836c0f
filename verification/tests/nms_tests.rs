// Non-maximum suppression over labeled regions, at a fixed-point scale of
// ten coordinate units per point and probabilities in thousandths. The
// suppression rule is the relaxed IoU (overlap over the smaller area), so
// a small box inside a kept larger one is suppressed regardless of label.

use ferrules::geom::BBox;
use ferrules::layout::{LayoutBBox, LayoutLabel};
use ferrules::nms::nms;

fn region(x0: i64, y0: i64, x1: i64, y1: i64, label: LayoutLabel, proba: u32) -> LayoutBBox {
    LayoutBBox { id: 0, bbox: BBox { x0, y0, x1, y1 }, label, proba }
}

#[test]
fn test_nms_high_overlap_contained_box() {
    let mut raw_bboxes = vec![
        region(0, 0, 30, 30, LayoutLabel::Text, 850),
        // Box fully contained within box #0
        region(10, 10, 20, 20, LayoutLabel::Text, 950),
    ];

    // threshold 0.5
    nms(&mut raw_bboxes, 1, 2);

    assert_eq!(raw_bboxes.len(), 1);
    assert_eq!(raw_bboxes[0].proba, 950);
}

#[test]
fn model_test_nms_no_overlap() {
    let mut raw_bboxes = vec![
        region(0, 0, 10, 10, LayoutLabel::Text, 900),
        region(20, 20, 30, 30, LayoutLabel::Text, 950),
        region(40, 40, 50, 50, LayoutLabel::Text, 850),
    ];

    nms(&mut raw_bboxes, 1, 2);

    assert_eq!(raw_bboxes.len(), 3);
    // No boxes eliminated as there is no overlap; order is by descending
    // confidence.
    assert_eq!(raw_bboxes[0].proba, 950);
    assert_eq!(raw_bboxes[1].proba, 900);
    assert_eq!(raw_bboxes[2].proba, 850);
}

#[test]
fn test_nms_high_overlap_same_label() {
    let mut raw_bboxes = vec![
        region(0, 0, 20, 20, LayoutLabel::Text, 850),
        // Shifted slightly inside box #0 so the overlap is large
        region(5, 5, 20, 20, LayoutLabel::Text, 950),
        // Exactly the same as box #0
        region(0, 0, 20, 20, LayoutLabel::Text, 900),
    ];

    // All pairwise overlaps exceed 0.5 of the smaller box, so only the
    // highest-confidence box survives.
    nms(&mut raw_bboxes, 1, 2);

    assert_eq!(raw_bboxes.len(), 1);
    assert_eq!(raw_bboxes[0].proba, 950);
}

#[test]
fn test_nms_partial_overlap_different_labels() {
    let mut raw_bboxes = vec![
        region(0, 0, 20, 20, LayoutLabel::Text, 850),
        region(10, 10, 30, 30, LayoutLabel::Title, 950),
        region(0, 0, 10, 10, LayoutLabel::Text, 700),
    ];

    nms(&mut raw_bboxes, 1, 2);

    // Suppression is class-agnostic and relaxed: the third box lies
    // entirely inside the first kept one, so it goes; the two large boxes
    // overlap only a quarter of the smaller and both stay.
    assert_eq!(raw_bboxes.len(), 2);
    assert_eq!(raw_bboxes[0].proba, 950);
    assert_eq!(raw_bboxes[1].proba, 850);
}

#[test]
fn test_nms_mixed_case() {
    let mut raw_bboxes = vec![
        region(0, 0, 20, 20, LayoutLabel::Text, 900),
        region(5, 5, 20, 20, LayoutLabel::Text, 800),
        region(5, 5, 20, 20, LayoutLabel::Text, 850),
        region(30, 30, 50, 50, LayoutLabel::Title, 950),
        region(35, 35, 50, 50, LayoutLabel::Title, 750),
    ];

    nms(&mut raw_bboxes, 1, 2);

    // Only the top box of each cluster remains, highest confidence first.
    assert!(raw_bboxes.len() <= 3, "Expected at most 3 boxes after NMS");
    assert!(
        raw_bboxes
            .iter()
            .all(|b| b.label == LayoutLabel::Text || b.label == LayoutLabel::Title)
    );
    assert_eq!(raw_bboxes.len(), 2);
    assert_eq!(raw_bboxes[0].proba, 950);
    assert_eq!(raw_bboxes[1].proba, 900);
}

#[test]
fn nms_highest_survives_and_no_close_pair() {
    // The highest-confidence box always survives, and no two survivors
    // overlap more than the threshold allows.
    let mut boxes = vec![
        region(0, 0, 40, 40, LayoutLabel::Text, 600),
        region(0, 0, 38, 40, LayoutLabel::Caption, 990),
        region(100, 100, 140, 140, LayoutLabel::Picture, 500),
        region(102, 102, 140, 140, LayoutLabel::Table, 510),
    ];
    nms(&mut boxes, 4, 5);
    assert_eq!(boxes[0].proba, 990);
    for i in 0..boxes.len() {
        for j in (i + 1)..boxes.len() {
            let r = boxes[i].bbox.relaxed_iou(&boxes[j].bbox);
            assert!(!(r.num * 5 > 4 * r.den));
        }
    }
}
