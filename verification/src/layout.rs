//! Layout-region types and detector post-processing.
//!
//! The detector emits, per anchor, a candidate box `(cx, cy, w, h)` and one
//! score per label. Post-processing keeps the best-scoring label of each
//! anchor, drops low-confidence candidates, converts to corner form clipped
//! to the page, and finally deduplicates with non-maximum suppression
//! (see `nms`). Probabilities are fixed-point: `PROB_SCALE` is 1.0.

use vstd::prelude::*;

use crate::geom::BBox;

verus! {

/// Fixed-point scale of probabilities: a score of `PROB_SCALE` means 1.0.
pub const PROB_SCALE: u32 = 1000;

/// Confidence threshold (0.3): candidates scoring below it are discarded.
pub const CONF_THRESHOLD: u32 = 300;

/// Relaxed-IoU threshold of non-maximum suppression, as the fraction 4/5.
pub const IOU_THRESHOLD_NUM: i64 = 4;

pub const IOU_THRESHOLD_DEN: i64 = 5;

/// Edge length the detector expects its input image to have.
pub const REQUIRED_WIDTH: u32 = 1024;

pub const REQUIRED_HEIGHT: u32 = 1024;

pub const ORT_INTRATHREAD: usize = 16;

pub const ORT_INTERTHREAD: usize = 4;

/// The closed set of labels the layout detector can assign to a region.
#[derive(Debug, Clone, Copy, PartialEq, Eq, Structural)]
pub enum LayoutLabel {
    Caption,
    Footnote,
    Formula,
    ListItem,
    PageFooter,
    PageHeader,
    Picture,
    SectionHeader,
    Table,
    Text,
    Title,
}

/// Number of labels in `LayoutLabel`, which is also the number of scores a
/// detection carries.
pub const LABEL_COUNT: usize = 11;

/// The label whose score sits at `index` in a detection's score vector,
/// following the detector's class order.
pub open spec fn spec_label_of_index(index: int) -> LayoutLabel {
    if index == 0 {
        LayoutLabel::Caption
    } else if index == 1 {
        LayoutLabel::Footnote
    } else if index == 2 {
        LayoutLabel::Formula
    } else if index == 3 {
        LayoutLabel::ListItem
    } else if index == 4 {
        LayoutLabel::PageFooter
    } else if index == 5 {
        LayoutLabel::PageHeader
    } else if index == 6 {
        LayoutLabel::Picture
    } else if index == 7 {
        LayoutLabel::SectionHeader
    } else if index == 8 {
        LayoutLabel::Table
    } else if index == 9 {
        LayoutLabel::Text
    } else {
        LayoutLabel::Title
    }
}

pub fn label_of_index(index: usize) -> (r: LayoutLabel)
    requires
        index < LABEL_COUNT,
    ensures
        r == spec_label_of_index(index as int),
{
    if index == 0 {
        LayoutLabel::Caption
    } else if index == 1 {
        LayoutLabel::Footnote
    } else if index == 2 {
        LayoutLabel::Formula
    } else if index == 3 {
        LayoutLabel::ListItem
    } else if index == 4 {
        LayoutLabel::PageFooter
    } else if index == 5 {
        LayoutLabel::PageHeader
    } else if index == 6 {
        LayoutLabel::Picture
    } else if index == 7 {
        LayoutLabel::SectionHeader
    } else if index == 8 {
        LayoutLabel::Table
    } else if index == 9 {
        LayoutLabel::Text
    } else {
        LayoutLabel::Title
    }
}

/// A labeled rectangle produced by the layout detector.
#[derive(Debug, Clone, Copy, PartialEq, Eq, Structural)]
pub struct LayoutBBox {
    pub id: i32,
    pub bbox: BBox,
    pub label: LayoutLabel,
    /// Detection confidence in units of `1 / PROB_SCALE`.
    pub proba: u32,
}

impl LayoutBBox {
    /// A region is textual unless it is a picture or a table.
    pub open spec fn spec_is_text_block(self) -> bool {
        self.label != LayoutLabel::Picture && self.label != LayoutLabel::Table
    }

    pub fn is_text_block(&self) -> (r: bool)
        ensures
            r == self.spec_is_text_block(),
    {
        match self.label {
            LayoutLabel::Picture => false,
            LayoutLabel::Table => false,
            _ => true,
        }
    }
}

/// Execution providers the inference runtime may be asked for, in priority
/// order.
#[derive(Debug, Clone, Copy, PartialEq, Eq, PartialOrd, Ord, Structural)]
pub enum OrtExecutionProvider {
    CPU,
    CoreML { ane_only: bool },
    CUDA(i32),
    Trt(i32),
}

/// Configuration of the inference runtime session.
#[derive(Debug, Clone)]
pub struct ORTConfig {
    pub execution_providers: Vec<OrtExecutionProvider>,
    pub intra_threads: usize,
    pub inter_threads: usize,
    pub opt_level: Option<u32>,
}

impl Default for ORTConfig {
    /// CPU execution with the default thread budget.
    fn default() -> (r: Self)
        ensures
            r.execution_providers@ == seq![OrtExecutionProvider::CPU],
            r.intra_threads == ORT_INTRATHREAD,
            r.inter_threads == ORT_INTERTHREAD,
            r.opt_level is None,
    {
        let mut providers: Vec<OrtExecutionProvider> = Vec::new();
        providers.push(OrtExecutionProvider::CPU);
        ORTConfig {
            execution_providers: providers,
            intra_threads: ORT_INTRATHREAD,
            inter_threads: ORT_INTERTHREAD,
            opt_level: None,
        }
    }
}

/// One anchor's output: a candidate box in page coordinates (center form)
/// and one confidence score per label.
#[derive(Debug, Clone)]
pub struct Detection {
    pub cx: i64,
    pub cy: i64,
    pub w: i64,
    pub h: i64,
    /// Scores in units of `1 / PROB_SCALE`, indexed as `spec_label_of_index`.
    pub scores: Vec<u32>,
}

/// A detection whose candidate box stays within the coordinate bound; the
/// detector reports non-negative sizes.
pub open spec fn spec_detection_bounded(d: Detection) -> bool {
    &&& -crate::geom::COORD_LIMIT <= d.cx <= crate::geom::COORD_LIMIT
    &&& -crate::geom::COORD_LIMIT <= d.cy <= crate::geom::COORD_LIMIT
    &&& 0 <= d.w <= crate::geom::COORD_LIMIT
    &&& 0 <= d.h <= crate::geom::COORD_LIMIT
}

/// Index of the greatest score, taking the last one on ties.
pub open spec fn spec_argmax_last(scores: Seq<u32>) -> int
    decreases scores.len(),
{
    if scores.len() <= 1 {
        0
    } else {
        let rest = spec_argmax_last(scores.drop_last());
        if scores.last() >= scores[rest] {
            scores.len() - 1
        } else {
            rest
        }
    }
}

pub proof fn lemma_argmax_last_in_range(scores: Seq<u32>)
    requires
        scores.len() > 0,
    ensures
        0 <= spec_argmax_last(scores) < scores.len(),
        forall|i: int| 0 <= i < scores.len() ==> #[trigger] scores[i] <= scores[spec_argmax_last(scores)],
    decreases scores.len(),
{
    if scores.len() > 1 {
        lemma_argmax_last_in_range(scores.drop_last());
        let rest = spec_argmax_last(scores.drop_last());
        assert forall|i: int| 0 <= i < scores.len() implies #[trigger] scores[i]
            <= scores[spec_argmax_last(scores)] by {
            if i < scores.len() - 1 {
                assert(scores.drop_last()[i] == scores[i]);
                assert(scores.drop_last()[rest] == scores[rest]);
            }
        }
    }
}

/// Greatest score and its index, the last such index on ties.
fn argmax_last(scores: &Vec<u32>) -> (r: usize)
    requires
        scores@.len() > 0,
    ensures
        r < scores@.len(),
        r == spec_argmax_last(scores@),
        forall|i: int| 0 <= i < scores@.len() ==> #[trigger] scores@[i] <= scores@[r as int],
{
    let mut best: usize = 0;
    let mut i: usize = 1;
    while i < scores.len()
        invariant
            0 < i <= scores@.len(),
            best < i,
            best == spec_argmax_last(scores@.take(i as int)),
        decreases scores@.len() - i,
    {
        proof {
            lemma_argmax_last_in_range(scores@.take(i as int));
            assert(scores@.take(i + 1).drop_last() =~= scores@.take(i as int));
        }
        if scores[i] >= scores[best] {
            best = i;
        }
        i += 1;
    }
    proof {
        assert(scores@.take(scores@.len() as int) =~= scores@);
        lemma_argmax_last_in_range(scores@);
    }
    best
}

/// The corner-form box of a detection, clipped to `[0, w] x [0, h]`;
/// integer halving truncates toward zero.
pub open spec fn spec_clipped_box(d: Detection, img_w: int, img_h: int) -> BBox {
    let x0 = spec_clamp(d.cx - d.w / 2, 0, img_w);
    let y0 = spec_clamp(d.cy - d.h / 2, 0, img_h);
    let x1 = spec_clamp(d.cx + d.w / 2, 0, img_w);
    let y1 = spec_clamp(d.cy + d.h / 2, 0, img_h);
    BBox { x0: x0 as i64, y0: y0 as i64, x1: x1 as i64, y1: y1 as i64 }
}

pub open spec fn spec_clamp(v: int, lo: int, hi: int) -> int {
    if v < lo {
        lo
    } else if v > hi {
        hi
    } else {
        v
    }
}

fn clamp_i64(v: i64, lo: i64, hi: i64) -> (r: i64)
    requires
        lo <= hi,
    ensures
        r == spec_clamp(v as int, lo as int, hi as int),
{
    if v < lo {
        lo
    } else if v > hi {
        hi
    } else {
        v
    }
}

/// Whether a detection passes the confidence gate, and if so which label
/// and score it gets.
pub open spec fn spec_detection_kept(d: Detection) -> bool {
    d.scores.len() == LABEL_COUNT && d.scores[spec_argmax_last(d.scores@)] >= CONF_THRESHOLD
}

/// The region a kept detection turns into (before ids are assigned).
pub open spec fn spec_region_of_detection(d: Detection, img_w: int, img_h: int) -> LayoutBBox {
    LayoutBBox {
        id: 0,
        bbox: spec_clipped_box(d, img_w, img_h),
        label: spec_label_of_index(spec_argmax_last(d.scores@)),
        proba: d.scores[spec_argmax_last(d.scores@)],
    }
}

/// The regions that a sequence of detections yields, in order: each
/// detection with full scores, confidence at or above the threshold and a
/// non-degenerate clipped box contributes one region.
pub open spec fn spec_extract_regions(dets: Seq<Detection>, img_w: int, img_h: int) -> Seq<
    LayoutBBox,
>
    decreases dets.len(),
{
    if dets.len() == 0 {
        Seq::empty()
    } else {
        let rest = spec_extract_regions(dets.drop_last(), img_w, img_h);
        let d = dets.last();
        if spec_detection_kept(d) {
            let b = spec_clipped_box(d, img_w, img_h);
            if b.x0 <= b.x1 && b.y0 <= b.y1 {
                rest.push(spec_region_of_detection(d, img_w, img_h))
            } else {
                rest
            }
        } else {
            rest
        }
    }
}

/// Convert raw detections into labeled regions: pick each anchor's best
/// label (last index on ties), drop candidates under `CONF_THRESHOLD`,
/// clip boxes to the page. Ids are all 0; `assign_ids` numbers them after
/// suppression.
pub fn extract_regions(dets: &Vec<Detection>, img_w: i64, img_h: i64) -> (r: Vec<LayoutBBox>)
    requires
        0 <= img_w <= crate::geom::COORD_LIMIT,
        0 <= img_h <= crate::geom::COORD_LIMIT,
        forall|i: int| 0 <= i < dets@.len() ==> spec_detection_bounded(#[trigger] dets@[i]),
    ensures
        r@ == spec_extract_regions(dets@, img_w as int, img_h as int),
        forall|i: int| 0 <= i < r@.len() ==> (#[trigger] r@[i]).bbox.wf(),
{
    let mut out: Vec<LayoutBBox> = Vec::new();
    let mut i: usize = 0;
    while i < dets.len()
        invariant
            0 <= i <= dets@.len(),
            0 <= img_w <= crate::geom::COORD_LIMIT,
            0 <= img_h <= crate::geom::COORD_LIMIT,
            forall|k: int| 0 <= k < dets@.len() ==> spec_detection_bounded(#[trigger] dets@[k]),
            out@ == spec_extract_regions(dets@.take(i as int), img_w as int, img_h as int),
            forall|k: int| 0 <= k < out@.len() ==> (#[trigger] out@[k]).bbox.wf(),
        decreases dets@.len() - i,
    {
        proof {
            assert(dets@.take(i + 1).drop_last() =~= dets@.take(i as int));
            assert(dets@.take(i + 1).last() == dets@[i as int]);
        }
        let d = &dets[i];
        if d.scores.len() == LABEL_COUNT {
            let best = argmax_last(&d.scores);
            let proba = d.scores[best];
            if proba >= CONF_THRESHOLD {
                let half_w = d.w / 2;
                let half_h = d.h / 2;
                let x0 = clamp_i64(d.cx - half_w, 0, img_w);
                let y0 = clamp_i64(d.cy - half_h, 0, img_h);
                let x1 = clamp_i64(d.cx + half_w, 0, img_w);
                let y1 = clamp_i64(d.cy + half_h, 0, img_h);
                if x0 <= x1 && y0 <= y1 {
                    let region = LayoutBBox {
                        id: 0,
                        bbox: BBox { x0, y0, x1, y1 },
                        label: label_of_index(best),
                        proba,
                    };
                    out.push(region);
                }
            }
        }
        i += 1;
    }
    proof {
        assert(dets@.take(dets@.len() as int) =~= dets@);
    }
    out
}

/// Renumber regions so that each carries its position as id, keeping every
/// other field.
pub fn assign_ids(regions: &mut Vec<LayoutBBox>)
    requires
        old(regions)@.len() <= 0x7fff_ffff,
    ensures
        final(regions)@.len() == old(regions)@.len(),
        forall|i: int|
            0 <= i < final(regions)@.len() ==> (#[trigger] final(regions)@[i]) == (LayoutBBox {
                id: i as i32,
                ..old(regions)@[i]
            }),
{
    let n = regions.len();
    let mut i: usize = 0;
    while i < n
        invariant
            n == regions@.len() == old(regions)@.len() <= 0x7fff_ffff,
            0 <= i <= n,
            forall|k: int|
                0 <= k < i ==> (#[trigger] regions@[k]) == (LayoutBBox {
                    id: k as i32,
                    ..old(regions)@[k]
                }),
            forall|k: int| i <= k < n ==> (#[trigger] regions@[k]) == old(regions)@[k],
        decreases n - i,
    {
        let mut r = regions[i];
        r.id = i as i32;
        regions.set(i, r);
        i += 1;
    }
}

} // verus!
