// Detector post-processing: label argmax, confidence cut, clipping and
// id assignment, plus span and line aggregation.

use ferrules::entities::{CharSpan, Line};
use ferrules::geom::BBox;
use ferrules::layout::{
    assign_ids, extract_regions, Detection, LayoutLabel, ORTConfig, OrtExecutionProvider,
    CONF_THRESHOLD,
};
use ferrules::lines::{parse_text_lines, parse_text_spans, PageChar};

fn bb(x0: i64, y0: i64, x1: i64, y1: i64) -> BBox {
    BBox { x0, y0, x1, y1 }
}

fn detection(cx: i64, cy: i64, w: i64, h: i64, best: usize, proba: u32) -> Detection {
    let mut scores = vec![0u32; 11];
    scores[best] = proba;
    Detection { cx, cy, w, h, scores }
}

#[test]
fn extract_keeps_confident_detections_only() {
    let dets = vec![
        detection(50, 50, 20, 10, 9, 800),
        detection(50, 50, 20, 10, 0, 299),
        detection(50, 50, 20, 10, 6, CONF_THRESHOLD),
    ];
    let regions = extract_regions(&dets, 1000, 1000);
    assert_eq!(regions.len(), 2);
    assert_eq!(regions[0].label, LayoutLabel::Text);
    assert_eq!(regions[0].proba, 800);
    assert_eq!(regions[0].bbox, bb(40, 45, 60, 55));
    assert_eq!(regions[1].label, LayoutLabel::Picture);
}

#[test]
fn extract_clips_to_page() {
    let dets = vec![detection(5, 5, 40, 40, 9, 900)];
    let regions = extract_regions(&dets, 100, 100);
    assert_eq!(regions.len(), 1);
    assert_eq!(regions[0].bbox, bb(0, 0, 25, 25));
}

#[test]
fn extract_argmax_takes_last_on_ties() {
    let mut scores = vec![0u32; 11];
    scores[2] = 700;
    scores[8] = 700; // Table, same score, later index wins
    let dets = vec![Detection { cx: 50, cy: 50, w: 10, h: 10, scores }];
    let regions = extract_regions(&dets, 100, 100);
    assert_eq!(regions.len(), 1);
    assert_eq!(regions[0].label, LayoutLabel::Table);
}

#[test]
fn ids_follow_suppression_order() {
    let mut regions = extract_regions(
        &vec![
            detection(20, 20, 10, 10, 9, 700),
            detection(70, 70, 10, 10, 9, 900),
        ],
        100,
        100,
    );
    ferrules::nms::nms(&mut regions, 4, 5);
    assign_ids(&mut regions);
    for (i, r) in regions.iter().enumerate() {
        assert_eq!(r.id, i as i32);
    }
    // Post-suppression order is by descending confidence.
    assert_eq!(regions[0].proba, 900);
}

#[test]
fn default_runtime_config_is_cpu() {
    let cfg = ORTConfig::default();
    assert_eq!(cfg.execution_providers, vec![OrtExecutionProvider::CPU]);
    assert_eq!(cfg.intra_threads, 16);
    assert_eq!(cfg.inter_threads, 4);
    assert!(cfg.opt_level.is_none());
}

fn page_char(text: &str, x0: i64, size: i64, rot: i32, idx: usize) -> PageChar {
    PageChar {
        text: text.to_string(),
        tight_bounds: bb(x0, 0, x0 + 5, 10),
        loose_bounds: bb(x0, 0, x0 + 6, 12),
        font_name: "F1".to_string(),
        font_size: size,
        font_weight: Some(400),
        rotation: rot,
        index: idx,
    }
}

#[test]
fn spans_split_on_font_change() {
    let chars = vec![
        page_char("a", 0, 12, 0, 0),
        page_char("b", 5, 12, 0, 1),
        page_char("c", 10, 14, 0, 2), // different size opens a new span
    ];
    let spans = parse_text_spans(&chars);
    assert_eq!(spans.len(), 2);
    assert_eq!(spans[0].text, "ab");
    assert_eq!(spans[0].char_start_idx, 0);
    assert_eq!(spans[0].char_end_idx, 1);
    assert_eq!(spans[1].text, "c");
}

fn span(text: &str, bbox: BBox, start: usize) -> CharSpan {
    CharSpan {
        bbox,
        text: text.to_string(),
        rotation: 0,
        font_name: "F1".to_string(),
        font_size: 12,
        font_weight: None,
        char_start_idx: start,
        char_end_idx: start,
    }
}

#[test]
fn lines_union_spans_and_split_below_baseline() {
    let s1 = span("first", bb(0, 0, 50, 10), 0);
    let s2 = span("line", bb(50, 0, 80, 10), 5);
    let s3 = span("second", bb(0, 12, 40, 22), 10);
    let lines: Vec<Line> = parse_text_lines(vec![s1, s2, s3]);
    assert_eq!(lines.len(), 2);
    assert_eq!(lines[0].text, "firstline");
    // The first line's box is the union of its spans' boxes.
    assert_eq!(lines[0].bbox, bb(0, 0, 80, 10));
    assert_eq!(lines[1].text, "second");
    assert_eq!(lines[1].spans.len(), 1);
}

#[test]
fn linebreak_span_opens_line_that_adopts_next_box() {
    // A span ending in a line feed closes the current line; it opens the
    // next line itself, and its zero-width box is replaced wholesale by
    // the first real span's box.
    let s1 = span("first", bb(0, 0, 50, 10), 0);
    let s2 = span("\n", bb(50, 0, 50, 22), 5);
    let s3 = span("second", bb(0, 12, 40, 22), 6);
    let lines: Vec<Line> = parse_text_lines(vec![s1, s2, s3]);
    assert_eq!(lines.len(), 2);
    assert_eq!(lines[0].text, "first");
    assert_eq!(lines[1].text, "\nsecond");
    assert_eq!(lines[1].bbox, bb(0, 12, 40, 22));
}
