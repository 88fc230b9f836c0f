// Page assembly: the OCR coverage rule and line-to-region fusion.

use ferrules::entities::{ElementType, Line};
use ferrules::geom::BBox;
use ferrules::layout::{LayoutBBox, LayoutLabel};
use ferrules::page::{
    build_page_elements, choose_lines, merge_lines_layout, page_needs_ocr, textual_regions,
    MAXIMUM_ASSIGNMENT_DISTANCE_Q,
};

fn bb(x0: i64, y0: i64, x1: i64, y1: i64) -> BBox {
    BBox { x0, y0, x1, y1 }
}

fn region(id: i32, label: LayoutLabel, bbox: BBox) -> LayoutBBox {
    LayoutBBox { id, bbox, label, proba: 900 }
}

fn line(text: &str, bbox: BBox) -> Line {
    Line { text: text.to_string(), bbox, rotation: 0, spans: vec![] }
}

#[test]
fn ocr_triggers_below_half_coverage() {
    // Textual regions cover 100 area units, native lines only 40: the
    // ratio 0.4 falls below one half, so the page needs OCR.
    let boxes = vec![region(0, LayoutLabel::Text, bb(0, 0, 10, 10))];
    let lines = vec![line("short", bb(0, 0, 8, 5))];
    assert!(page_needs_ocr(&boxes, &lines));
}

#[test]
fn ocr_not_triggered_at_half_coverage() {
    // Exactly half coverage does not trigger the fallback.
    let boxes = vec![region(0, LayoutLabel::Text, bb(0, 0, 10, 10))];
    let lines = vec![line("half", bb(0, 0, 10, 5))];
    assert!(!page_needs_ocr(&boxes, &lines));
}

#[test]
fn ocr_triggers_on_zero_region_area() {
    let boxes: Vec<LayoutBBox> = vec![];
    let lines = vec![line("text", bb(0, 0, 10, 5))];
    assert!(page_needs_ocr(&boxes, &lines));
}

#[test]
fn textual_regions_drop_pictures_and_tables() {
    let boxes = vec![
        region(0, LayoutLabel::Text, bb(0, 0, 10, 10)),
        region(1, LayoutLabel::Picture, bb(0, 10, 10, 20)),
        region(2, LayoutLabel::Table, bb(0, 20, 10, 30)),
        region(3, LayoutLabel::Title, bb(0, 30, 10, 40)),
    ];
    let textual = textual_regions(&boxes);
    assert_eq!(textual.len(), 2);
    assert_eq!(textual[0].id, 0);
    assert_eq!(textual[1].id, 3);
}

#[test]
fn choose_lines_prefers_ocr_when_needed() {
    let native = vec![line("native", bb(0, 0, 10, 5))];
    let ocr = vec![line("ocr", bb(0, 0, 10, 5))];
    let chosen = choose_lines(native, Some(ocr), true);
    assert_eq!(chosen.len(), 1);
    assert_eq!(chosen[0].text, "ocr");

    let native = vec![line("native", bb(0, 0, 10, 5))];
    let ocr = vec![line("ocr", bb(0, 0, 10, 5))];
    let chosen = choose_lines(native, Some(ocr), false);
    assert_eq!(chosen[0].text, "native");

    let native = vec![line("native", bb(0, 0, 10, 5))];
    let chosen = choose_lines(native, None, true);
    assert_eq!(chosen[0].text, "native");
}

#[test]
fn lines_fuse_into_overlapping_region() {
    // Two lines inside one text region, one inside a header region, one
    // line far away from everything is dropped.
    let boxes = vec![
        region(0, LayoutLabel::PageHeader, bb(0, 0, 100, 10)),
        region(1, LayoutLabel::Text, bb(0, 20, 100, 60)),
    ];
    let lines = vec![
        line("body one", bb(5, 22, 90, 30)),
        line("head", bb(5, 1, 50, 9)),
        line("body two", bb(5, 32, 90, 40)),
        line("stray", bb(4000, 4000, 4100, 4010)),
    ];
    let elements = merge_lines_layout(&boxes, &lines, 0, MAXIMUM_ASSIGNMENT_DISTANCE_Q);
    // Header bucket first, then body; the stray line is dropped.
    assert_eq!(elements.len(), 2);
    assert_eq!(elements[0].kind, ElementType::Header);
    assert_eq!(elements[0].text_block.text, "head");
    assert_eq!(elements[1].kind, ElementType::Text);
    assert_eq!(elements[1].text_block.text, "body one body two");
}

#[test]
fn unmatched_regions_are_inserted() {
    // A picture region that gets no line still yields an element, with
    // empty text and the picture's box, and per-page ids are positions.
    let boxes = vec![
        region(0, LayoutLabel::Text, bb(0, 0, 100, 40)),
        region(1, LayoutLabel::Picture, bb(0, 50, 100, 90)),
    ];
    let lines = vec![line("paragraph", bb(5, 2, 90, 38))];
    let elements = build_page_elements(&boxes, &lines, 4, MAXIMUM_ASSIGNMENT_DISTANCE_Q);
    assert_eq!(elements.len(), 2);
    for (i, e) in elements.iter().enumerate() {
        assert_eq!(e.id, i);
        assert_eq!(e.page_id, 4);
    }
    let kinds: Vec<ElementType> = elements.iter().map(|e| e.kind).collect();
    assert!(kinds.contains(&ElementType::Image));
    assert!(kinds.contains(&ElementType::Text));
}
