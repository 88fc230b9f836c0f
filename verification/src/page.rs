//! Per-page fusion: native (or OCR) text lines are reconciled with the
//! detected layout regions into ordered page elements.
//!
//! Each line goes to the region with the greatest overlap, if that overlap
//! exceeds half the line's area; otherwise to the nearest region by the
//! axis-weighted centroid distance, if near enough; otherwise the line is
//! dropped. Lines are bucketed by their region's role (header, body,
//! footer); regions that received no line are inserted into the body next
//! to the nearest element. The page's elements are the concatenation
//! headers, body, footers, renumbered in that order.

use vstd::prelude::*;

use crate::entities::{Element, ElementV, Line, PageID};
use crate::geom::BBox;
use crate::layout::{LayoutBBox, LayoutLabel};
use crate::lines::LineV;

verus! {

/// Weight of the horizontal axis in line-to-region distance: horizontal
/// alignment counts five times as much as vertical spacing.
pub const LAYOUT_DISTANCE_X_WEIGHT: i64 = 5;

pub const LAYOUT_DISTANCE_Y_WEIGHT: i64 = 1;

/// Default cap on the weighted squared centroid distance for assigning a
/// line to its nearest region, in the quadrupled units of
/// `BBox::distance` at a coordinate scale of one unit per point: four
/// times the distance bound of 20 square points.
pub const MAXIMUM_ASSIGNMENT_DISTANCE_Q: i64 = 80;

/// Longest region or line list the coverage test accepts; keeps area sums
/// within `i64`.
pub const MAX_COVERAGE_ITEMS: usize = 2048;

pub open spec fn spec_sum_areas(bs: Seq<BBox>) -> int
    decreases bs.len(),
{
    if bs.len() == 0 {
        0
    } else {
        spec_sum_areas(bs.drop_last()) + bs.last().spec_area()
    }
}

proof fn lemma_sum_areas_bound(bs: Seq<BBox>)
    requires
        forall|i: int| 0 <= i < bs.len() ==> (#[trigger] bs[i]).wf(),
    ensures
        0 <= spec_sum_areas(bs) <= bs.len() * 0x4_0000_0000_0000,
    decreases bs.len(),
{
    if bs.len() == 0 {
    } else {
        assert forall|i: int| 0 <= i < bs.drop_last().len() implies (#[trigger] bs.drop_last()[i]).wf() by {
            assert(bs.drop_last()[i] == bs[i]);
        }
        lemma_sum_areas_bound(bs.drop_last());
        assert(bs.last().wf());
        crate::geom::lemma_area_bound(bs.last());
        assert((bs.len() - 1) * 0x4_0000_0000_0000 + 0x4_0000_0000_0000 == bs.len()
            * 0x4_0000_0000_0000) by (nonlinear_arith);
    }
}

fn sum_areas(bs: &Vec<BBox>) -> (r: i64)
    requires
        forall|i: int| 0 <= i < bs@.len() ==> (#[trigger] bs@[i]).wf(),
        bs@.len() <= MAX_COVERAGE_ITEMS,
    ensures
        r == spec_sum_areas(bs@),
        0 <= r <= 0x2000_0000_0000_0000,
{
    proof {
        lemma_sum_areas_bound(bs@);
        assert(bs@.len() * 0x4_0000_0000_0000 <= 2048 * 0x4_0000_0000_0000) by (nonlinear_arith)
            requires
                bs@.len() <= 2048,
        ;
    }
    let mut total: i64 = 0;
    let mut i: usize = 0;
    while i < bs.len()
        invariant
            0 <= i <= bs@.len(),
            bs@.len() <= MAX_COVERAGE_ITEMS,
            forall|k: int| 0 <= k < bs@.len() ==> (#[trigger] bs@[k]).wf(),
            total == spec_sum_areas(bs@.take(i as int)),
            0 <= total <= i * 0x4_0000_0000_0000,
        decreases bs@.len() - i,
    {
        proof {
            lemma_sum_areas_bound(bs@.take(i as int));
            assert(bs@.take(i + 1).drop_last() =~= bs@.take(i as int));
            assert(i * 0x4_0000_0000_0000 + 0x4_0000_0000_0000 == (i + 1) * 0x4_0000_0000_0000)
                by (nonlinear_arith);
            assert((i + 1) * 0x4_0000_0000_0000 <= 2048 * 0x4_0000_0000_0000)
                by (nonlinear_arith)
                requires
                    i + 1 <= 2048,
            ;
        }
        total = total + bs[i].area();
        i += 1;
    }
    proof {
        assert(bs@.take(bs@.len() as int) =~= bs@);
        assert(bs@.len() * 0x4_0000_0000_0000 <= 0x2000_0000_0000_0000) by (nonlinear_arith)
            requires
                bs@.len() <= 2048,
        ;
    }
    total
}

/// Whether a page needs the OCR fallback: true when the textual regions
/// cover no area at all, or when the native lines cover less than half
/// the textual regions' total area.
pub open spec fn spec_page_needs_ocr(box_area: int, line_area: int) -> bool {
    if box_area > 0 {
        2 * line_area < box_area
    } else {
        true
    }
}

/// Decide the OCR fallback from the textual layout regions and the
/// native text lines: the fallback fires when the lines cover less than
/// half the regions' total area.
pub fn page_needs_ocr(text_boxes: &Vec<LayoutBBox>, text_lines: &Vec<Line>) -> (r: bool)
    requires
        forall|i: int| 0 <= i < text_boxes@.len() ==> (#[trigger] text_boxes@[i]).bbox.wf(),
        forall|i: int| 0 <= i < text_lines@.len() ==> (#[trigger] text_lines@[i]).bbox.wf(),
        text_boxes@.len() <= MAX_COVERAGE_ITEMS,
        text_lines@.len() <= MAX_COVERAGE_ITEMS,
    ensures
        r == spec_page_needs_ocr(
            spec_sum_areas(text_boxes@.map_values(|b: LayoutBBox| b.bbox)),
            spec_sum_areas(text_lines@.map_values(|l: Line| l.bbox)),
        ),
{
    let mut box_bbs: Vec<BBox> = Vec::new();
    let mut i: usize = 0;
    while i < text_boxes.len()
        invariant
            0 <= i <= text_boxes@.len(),
            forall|k: int| 0 <= k < text_boxes@.len() ==> (#[trigger] text_boxes@[k]).bbox.wf(),
            box_bbs@ == text_boxes@.take(i as int).map_values(|b: LayoutBBox| b.bbox),
        decreases text_boxes@.len() - i,
    {
        box_bbs.push(text_boxes[i].bbox);
        proof {
            assert(box_bbs@ =~= text_boxes@.take(i + 1).map_values(|b: LayoutBBox| b.bbox));
        }
        i += 1;
    }
    let mut line_bbs: Vec<BBox> = Vec::new();
    let mut j: usize = 0;
    while j < text_lines.len()
        invariant
            0 <= j <= text_lines@.len(),
            forall|k: int| 0 <= k < text_lines@.len() ==> (#[trigger] text_lines@[k]).bbox.wf(),
            line_bbs@ == text_lines@.take(j as int).map_values(|l: Line| l.bbox),
        decreases text_lines@.len() - j,
    {
        line_bbs.push(text_lines[j].bbox);
        proof {
            assert(line_bbs@ =~= text_lines@.take(j + 1).map_values(|l: Line| l.bbox));
        }
        j += 1;
    }
    proof {
        assert(text_boxes@.take(text_boxes@.len() as int) =~= text_boxes@);
        assert(text_lines@.take(text_lines@.len() as int) =~= text_lines@);
        assert forall|k: int| 0 <= k < box_bbs@.len() implies (#[trigger] box_bbs@[k]).wf() by {}
        assert forall|k: int| 0 <= k < line_bbs@.len() implies (#[trigger] line_bbs@[k]).wf() by {}
    }
    let box_area = sum_areas(&box_bbs);
    let line_area = sum_areas(&line_bbs);
    if box_area > 0 {
        2 * line_area < box_area
    } else {
        true
    }
}

/// The textual regions of `boxes`, in order: everything but pictures and
/// tables.
pub open spec fn spec_textual_regions(boxes: Seq<LayoutBBox>) -> Seq<LayoutBBox>
    decreases boxes.len(),
{
    if boxes.len() == 0 {
        Seq::empty()
    } else if boxes.last().spec_is_text_block() {
        spec_textual_regions(boxes.drop_last()).push(boxes.last())
    } else {
        spec_textual_regions(boxes.drop_last())
    }
}

/// Keep only the textual regions (everything but pictures and tables).
pub fn textual_regions(page_layout: &Vec<LayoutBBox>) -> (r: Vec<LayoutBBox>)
    ensures
        r@ == spec_textual_regions(page_layout@),
{
    let mut out: Vec<LayoutBBox> = Vec::new();
    let mut i: usize = 0;
    while i < page_layout.len()
        invariant
            0 <= i <= page_layout@.len(),
            out@ == spec_textual_regions(page_layout@.take(i as int)),
        decreases page_layout@.len() - i,
    {
        proof {
            assert(page_layout@.take(i + 1).drop_last() =~= page_layout@.take(i as int));
            assert(page_layout@.take(i + 1).last() == page_layout@[i as int]);
        }
        let b = page_layout[i];
        if b.is_text_block() {
            out.push(b);
        }
        i += 1;
    }
    proof {
        assert(page_layout@.take(page_layout@.len() as int) =~= page_layout@);
    }
    out
}

/// The lines a page ends up with: the OCR lines when the fallback fired
/// and produced a result, the native lines otherwise (in particular when
/// the fallback failed, keeping the page possibly incomplete rather than
/// empty).
pub fn choose_lines(native_lines: Vec<Line>, ocr_lines: Option<Vec<Line>>, need_ocr: bool) -> (r:
    Vec<Line>)
    ensures
        need_ocr && ocr_lines is Some ==> r == ocr_lines.unwrap(),
        !(need_ocr && ocr_lines is Some) ==> r == native_lines,
{
    if need_ocr {
        match ocr_lines {
            Some(lines) => lines,
            None => native_lines,
        }
    } else {
        native_lines
    }
}

/// Index of the region with the greatest overlap with `lb`, the last such
/// region on ties.
pub open spec fn spec_argmax_inter(boxes: Seq<LayoutBBox>, lb: BBox) -> int
    decreases boxes.len(),
{
    if boxes.len() <= 1 {
        0
    } else {
        let rest = spec_argmax_inter(boxes.drop_last(), lb);
        if boxes.last().bbox.spec_intersection(lb) >= boxes[rest].bbox.spec_intersection(lb) {
            boxes.len() - 1
        } else {
            rest
        }
    }
}

proof fn lemma_argmax_inter_props(boxes: Seq<LayoutBBox>, lb: BBox)
    requires
        boxes.len() > 0,
    ensures
        0 <= spec_argmax_inter(boxes, lb) < boxes.len(),
        forall|i: int|
            0 <= i < boxes.len() ==> (#[trigger] boxes[i]).bbox.spec_intersection(lb)
                <= boxes[spec_argmax_inter(boxes, lb)].bbox.spec_intersection(lb),
    decreases boxes.len(),
{
    if boxes.len() > 1 {
        lemma_argmax_inter_props(boxes.drop_last(), lb);
        let rest = spec_argmax_inter(boxes.drop_last(), lb);
        assert forall|i: int| 0 <= i < boxes.len() implies (#[trigger] boxes[i]).bbox.spec_intersection(
            lb,
        ) <= boxes[spec_argmax_inter(boxes, lb)].bbox.spec_intersection(lb) by {
            if i < boxes.len() - 1 {
                assert(boxes.drop_last()[i] == boxes[i]);
                assert(boxes.drop_last()[rest] == boxes[rest]);
            }
        }
    }
}

/// Index of the region nearest to `lb` by the axis-weighted squared
/// centroid distance, the first such region on ties.
pub open spec fn spec_argmin_dist(boxes: Seq<LayoutBBox>, lb: BBox) -> int
    decreases boxes.len(),
{
    if boxes.len() <= 1 {
        0
    } else {
        let rest = spec_argmin_dist(boxes.drop_last(), lb);
        if boxes.last().bbox.spec_distance(
            lb,
            LAYOUT_DISTANCE_X_WEIGHT as int,
            LAYOUT_DISTANCE_Y_WEIGHT as int,
        ) < boxes[rest].bbox.spec_distance(
            lb,
            LAYOUT_DISTANCE_X_WEIGHT as int,
            LAYOUT_DISTANCE_Y_WEIGHT as int,
        ) {
            boxes.len() - 1
        } else {
            rest
        }
    }
}

proof fn lemma_argmin_dist_props(boxes: Seq<LayoutBBox>, lb: BBox)
    requires
        boxes.len() > 0,
    ensures
        0 <= spec_argmin_dist(boxes, lb) < boxes.len(),
        forall|i: int|
            0 <= i < boxes.len() ==> (#[trigger] boxes[i]).bbox.spec_distance(
                lb,
                LAYOUT_DISTANCE_X_WEIGHT as int,
                LAYOUT_DISTANCE_Y_WEIGHT as int,
            ) >= boxes[spec_argmin_dist(boxes, lb)].bbox.spec_distance(
                lb,
                LAYOUT_DISTANCE_X_WEIGHT as int,
                LAYOUT_DISTANCE_Y_WEIGHT as int,
            ),
    decreases boxes.len(),
{
    if boxes.len() > 1 {
        lemma_argmin_dist_props(boxes.drop_last(), lb);
        let rest = spec_argmin_dist(boxes.drop_last(), lb);
        assert forall|i: int| 0 <= i < boxes.len() implies (#[trigger] boxes[i]).bbox.spec_distance(
            lb,
            LAYOUT_DISTANCE_X_WEIGHT as int,
            LAYOUT_DISTANCE_Y_WEIGHT as int,
        ) >= boxes[spec_argmin_dist(boxes, lb)].bbox.spec_distance(
            lb,
            LAYOUT_DISTANCE_X_WEIGHT as int,
            LAYOUT_DISTANCE_Y_WEIGHT as int,
        ) by {
            if i < boxes.len() - 1 {
                assert(boxes.drop_last()[i] == boxes[i]);
                assert(boxes.drop_last()[rest] == boxes[rest]);
            }
        }
    }
}

fn argmax_inter(boxes: &Vec<LayoutBBox>, lb: &BBox) -> (r: usize)
    requires
        boxes@.len() > 0,
        lb.wf(),
        forall|i: int| 0 <= i < boxes@.len() ==> (#[trigger] boxes@[i]).bbox.wf(),
    ensures
        r < boxes@.len(),
        r == spec_argmax_inter(boxes@, *lb),
{
    let mut best: usize = 0;
    let mut i: usize = 1;
    while i < boxes.len()
        invariant
            0 < i <= boxes@.len(),
            best < i,
            lb.wf(),
            forall|k: int| 0 <= k < boxes@.len() ==> (#[trigger] boxes@[k]).bbox.wf(),
            best == spec_argmax_inter(boxes@.take(i as int), *lb),
        decreases boxes@.len() - i,
    {
        proof {
            lemma_argmax_inter_props(boxes@.take(i as int), *lb);
            assert(boxes@.take(i + 1).drop_last() =~= boxes@.take(i as int));
        }
        if boxes[i].bbox.intersection(lb) >= boxes[best].bbox.intersection(lb) {
            best = i;
        }
        i += 1;
    }
    proof {
        assert(boxes@.take(boxes@.len() as int) =~= boxes@);
    }
    best
}

fn argmin_dist(boxes: &Vec<LayoutBBox>, lb: &BBox) -> (r: usize)
    requires
        boxes@.len() > 0,
        lb.wf(),
        forall|i: int| 0 <= i < boxes@.len() ==> (#[trigger] boxes@[i]).bbox.wf(),
    ensures
        r < boxes@.len(),
        r == spec_argmin_dist(boxes@, *lb),
{
    let mut best: usize = 0;
    let mut i: usize = 1;
    while i < boxes.len()
        invariant
            0 < i <= boxes@.len(),
            best < i,
            lb.wf(),
            forall|k: int| 0 <= k < boxes@.len() ==> (#[trigger] boxes@[k]).bbox.wf(),
            best == spec_argmin_dist(boxes@.take(i as int), *lb),
        decreases boxes@.len() - i,
    {
        proof {
            lemma_argmin_dist_props(boxes@.take(i as int), *lb);
            assert(boxes@.take(i + 1).drop_last() =~= boxes@.take(i as int));
        }
        if boxes[i].bbox.distance(lb, LAYOUT_DISTANCE_X_WEIGHT, LAYOUT_DISTANCE_Y_WEIGHT)
            < boxes[best].bbox.distance(lb, LAYOUT_DISTANCE_X_WEIGHT, LAYOUT_DISTANCE_Y_WEIGHT) {
            best = i;
        }
        i += 1;
    }
    proof {
        assert(boxes@.take(boxes@.len() as int) =~= boxes@);
    }
    best
}

/// The region a line is assigned to: the region of greatest overlap when
/// that overlap exceeds half the line's area, else the nearest region when
/// its weighted distance stays under `max_dist_q`, else none.
pub open spec fn spec_line_match(boxes: Seq<LayoutBBox>, lb: BBox, max_dist_q: int) -> Option<int> {
    if boxes.len() == 0 {
        None
    } else {
        let a = spec_argmax_inter(boxes, lb);
        if 2 * boxes[a].bbox.spec_intersection(lb) > lb.spec_area() {
            Some(a)
        } else {
            let d = spec_argmin_dist(boxes, lb);
            if boxes[d].bbox.spec_distance(
                lb,
                LAYOUT_DISTANCE_X_WEIGHT as int,
                LAYOUT_DISTANCE_Y_WEIGHT as int,
            ) < max_dist_q {
                Some(d)
            } else {
                None
            }
        }
    }
}

fn line_match(boxes: &Vec<LayoutBBox>, lb: &BBox, max_dist_q: i64) -> (r: Option<usize>)
    requires
        lb.wf(),
        forall|i: int| 0 <= i < boxes@.len() ==> (#[trigger] boxes@[i]).bbox.wf(),
    ensures
        r matches Some(x) ==> x < boxes@.len() && spec_line_match(boxes@, *lb, max_dist_q as int)
            == Some(x as int),
        r is None ==> spec_line_match(boxes@, *lb, max_dist_q as int) is None,
{
    if boxes.len() == 0 {
        return None;
    }
    let a = argmax_inter(boxes, lb);
    let inter = boxes[a].bbox.intersection(lb);
    if 2 * inter > lb.area() {
        return Some(a);
    }
    let d = argmin_dist(boxes, lb);
    if boxes[d].bbox.distance(lb, LAYOUT_DISTANCE_X_WEIGHT, LAYOUT_DISTANCE_Y_WEIGHT) < max_dist_q {
        Some(d)
    } else {
        None
    }
}

/// First index in `bucket` of the element backed by layout region `rid`,
/// or `bucket.len()` when no element is.
pub open spec fn spec_find_block(bucket: Seq<ElementV>, rid: i32) -> int
    decreases bucket.len(),
{
    if bucket.len() == 0 {
        0
    } else if bucket[0].layout_block_id == rid {
        0
    } else {
        1 + spec_find_block(bucket.drop_first(), rid)
    }
}

proof fn lemma_find_block_props(bucket: Seq<ElementV>, rid: i32)
    ensures
        0 <= spec_find_block(bucket, rid) <= bucket.len(),
        spec_find_block(bucket, rid) < bucket.len() ==> bucket[spec_find_block(
            bucket,
            rid,
        )].layout_block_id == rid,
    decreases bucket.len(),
{
    if bucket.len() > 0 && bucket[0].layout_block_id != rid {
        lemma_find_block_props(bucket.drop_first(), rid);
    }
}

fn find_block(bucket: &Vec<Element>, rid: i32) -> (r: usize)
    ensures
        r as int == spec_find_block(bucket@.map_values(|e: Element| e@), rid),
        r <= bucket@.len(),
{
    let ghost bv = bucket@.map_values(|e: Element| e@);
    let mut i: usize = 0;
    proof {
        assert(bv.skip(0) =~= bv);
    }
    while i < bucket.len()
        invariant
            0 <= i <= bucket@.len(),
            bv == bucket@.map_values(|e: Element| e@),
            spec_find_block(bv, rid) == i + spec_find_block(bv.skip(i as int), rid),
            forall|k: int| 0 <= k < i ==> (#[trigger] bv[k]).layout_block_id != rid,
        decreases bucket@.len() - i,
    {
        proof {
            assert(bv.skip(i as int)[0] == bv[i as int]);
            assert(bv.skip(i as int).drop_first() =~= bv.skip(i + 1));
        }
        if bucket[i].layout_block_id == rid {
            proof {
                assert(spec_find_block(bv.skip(i as int), rid) == 0);
            }
            return i;
        }
        i += 1;
    }
    proof {
        assert(bv.skip(bucket@.len() as int) =~= Seq::<ElementV>::empty());
    }
    i
}

/// A bucket after one line lands in it: the line's text is appended to
/// the element backed by the line's region, or a fresh element is opened
/// from the region (its interim id is its position; final ids are
/// assigned when the page is put together).
pub open spec fn spec_bucket_add(
    bucket: Seq<ElementV>,
    region: LayoutBBox,
    line: LineV,
    page_id: PageID,
) -> Seq<ElementV> {
    let idx = spec_find_block(bucket, region.id);
    if idx < bucket.len() {
        bucket.update(
            idx,
            ElementV {
                text: if bucket[idx].text.len() == 0 {
                    line.text
                } else {
                    bucket[idx].text + seq![' '] + line.text
                },
                ..bucket[idx]
            },
        )
    } else {
        bucket.push(
            ElementV {
                id: bucket.len() as usize,
                layout_block_id: region.id,
                text: line.text,
                kind: crate::entities::spec_kind_of_label(region.label),
                page_id,
                bbox: region.bbox,
            },
        )
    }
}

fn bucket_add(bucket: &mut Vec<Element>, region: &LayoutBBox, line: &Line, page_id: PageID)
    requires
        old(bucket)@.len() < usize::MAX,
    ensures
        final(bucket)@.map_values(|e: Element| e@) == spec_bucket_add(
            old(bucket)@.map_values(|e: Element| e@),
            *region,
            line@,
            page_id,
        ),
        final(bucket)@.len() <= old(bucket)@.len() + 1,
{
    let ghost bv = bucket@.map_values(|e: Element| e@);
    let idx = find_block(bucket, region.id);
    proof {
        lemma_find_block_props(bv, region.id);
    }
    if idx < bucket.len() {
        let mut el = bucket.remove(idx);
        el.push_line(line);
        bucket.insert(idx, el);
        proof {
            assert(bucket@.map_values(|e: Element| e@) =~= spec_bucket_add(
                bv,
                *region,
                line@,
                page_id,
            ));
        }
    } else {
        let mut el = Element::from_layout_block(bucket.len(), region, page_id);
        el.push_line(line);
        bucket.push(el);
        proof {
            assert(bucket@.map_values(|e: Element| e@) =~= spec_bucket_add(
                bv,
                *region,
                line@,
                page_id,
            ));
        }
    }
}

/// The three role buckets (headers, body, footers) that fusing `lines`
/// with `boxes` produces, processing lines in order.
pub open spec fn spec_fuse(
    boxes: Seq<LayoutBBox>,
    lines: Seq<LineV>,
    page_id: PageID,
    max_dist_q: int,
) -> (Seq<ElementV>, Seq<ElementV>, Seq<ElementV>)
    decreases lines.len(),
{
    if lines.len() == 0 {
        (Seq::empty(), Seq::empty(), Seq::empty())
    } else {
        let (h, b, f) = spec_fuse(boxes, lines.drop_last(), page_id, max_dist_q);
        let line = lines.last();
        match spec_line_match(boxes, line.bbox, max_dist_q) {
            None => (h, b, f),
            Some(r) => {
                let region = boxes[r];
                if region.label == LayoutLabel::PageHeader {
                    (spec_bucket_add(h, region, line, page_id), b, f)
                } else if region.label == LayoutLabel::PageFooter {
                    (h, b, spec_bucket_add(f, region, line, page_id))
                } else {
                    (h, spec_bucket_add(b, region, line, page_id), f)
                }
            },
        }
    }
}

/// Fuse text lines with layout regions into ordered elements: headers,
/// then body, then footers. A line lands in the region of greatest
/// overlap if that overlap exceeds half the line's area, else in the
/// nearest region within `max_dist_q`, else nowhere; the first line of a
/// region opens its element, later lines append with a single space.
pub fn merge_lines_layout(
    layout_boxes: &Vec<LayoutBBox>,
    lines: &Vec<Line>,
    page_id: PageID,
    max_dist_q: i64,
) -> (r: Vec<Element>)
    requires
        forall|i: int| 0 <= i < layout_boxes@.len() ==> (#[trigger] layout_boxes@[i]).bbox.wf(),
        forall|i: int| 0 <= i < lines@.len() ==> (#[trigger] lines@[i]).bbox.wf(),
        lines@.len() < usize::MAX,
    ensures
        ({
            let (h, b, f) = spec_fuse(
                layout_boxes@,
                lines@.map_values(|l: Line| l@),
                page_id,
                max_dist_q as int,
            );
            r@.map_values(|e: Element| e@) == h + b + f
        }),
{
    let ghost lv = lines@.map_values(|l: Line| l@);
    let mut headers: Vec<Element> = Vec::new();
    let mut body: Vec<Element> = Vec::new();
    let mut footers: Vec<Element> = Vec::new();
    let mut i: usize = 0;
    while i < lines.len()
        invariant
            0 <= i <= lines@.len(),
            lv == lines@.map_values(|l: Line| l@),
            forall|k: int| 0 <= k < layout_boxes@.len() ==> (#[trigger] layout_boxes@[k]).bbox.wf(),
            forall|k: int| 0 <= k < lines@.len() ==> (#[trigger] lines@[k]).bbox.wf(),
            headers@.len() <= i && body@.len() <= i && footers@.len() <= i,
            ({
                let (h, b, f) = spec_fuse(
                    layout_boxes@,
                    lv.take(i as int),
                    page_id,
                    max_dist_q as int,
                );
                headers@.map_values(|e: Element| e@) == h && body@.map_values(|e: Element| e@)
                    == b && footers@.map_values(|e: Element| e@) == f
            }),
        decreases lines@.len() - i,
    {
        proof {
            assert(lv.take(i + 1).drop_last() =~= lv.take(i as int));
            assert(lv.take(i + 1).last() == lines@[i as int]@);
        }
        let line = &lines[i];
        match line_match(layout_boxes, &line.bbox, max_dist_q) {
            None => {},
            Some(ridx) => {
                let region = layout_boxes[ridx];
                match region.label {
                    LayoutLabel::PageHeader => {
                        bucket_add(&mut headers, &region, line, page_id);
                    },
                    LayoutLabel::PageFooter => {
                        bucket_add(&mut footers, &region, line, page_id);
                    },
                    _ => {
                        bucket_add(&mut body, &region, line, page_id);
                    },
                }
            },
        }
        i += 1;
    }
    proof {
        assert(lv.take(lines@.len() as int) =~= lv);
    }
    let ghost hv = headers@.map_values(|e: Element| e@);
    let ghost bv = body@.map_values(|e: Element| e@);
    let ghost fv = footers@.map_values(|e: Element| e@);
    let hlen = headers.len();
    let blen = body.len();
    let mut out = headers;
    let mut j: usize = 0;
    while j < blen
        invariant
            0 <= j <= blen,
            blen == body@.len(),
            hlen == hv.len(),
            bv == body@.map_values(|e: Element| e@),
            out@.len() == hlen + j,
            forall|k: int| 0 <= k < hlen ==> (#[trigger] out@[k])@ == hv[k],
            forall|k: int| hlen <= k < out@.len() ==> (#[trigger] out@[k])@ == bv[k - hlen],
        decreases blen - j,
    {
        let el = body[j].clone();
        out.push(el);
        j += 1;
    }
    let mut k: usize = 0;
    while k < footers.len()
        invariant
            0 <= k <= footers@.len(),
            blen == body@.len(),
            hlen == hv.len(),
            fv == footers@.map_values(|e: Element| e@),
            out@.len() == hlen + blen + k,
            forall|q: int| 0 <= q < hlen ==> (#[trigger] out@[q])@ == hv[q],
            forall|q: int| hlen <= q < hlen + blen ==> (#[trigger] out@[q])@ == bv[q - hlen],
            forall|q: int| hlen + blen <= q < out@.len() ==> (#[trigger] out@[q])@ == fv[q - hlen
                - blen],
        decreases footers@.len() - k,
    {
        let el = footers[k].clone();
        out.push(el);
        k += 1;
    }
    proof {
        assert(out@.map_values(|e: Element| e@) =~= hv + bv + fv);
    }
    out
}


/// Index of the element nearest to `lb` by the axis-weighted squared
/// centroid distance, the first such element on ties.
pub open spec fn spec_argmin_dist_el(els: Seq<ElementV>, lb: BBox) -> int
    decreases els.len(),
{
    if els.len() <= 1 {
        0
    } else {
        let rest = spec_argmin_dist_el(els.drop_last(), lb);
        if els.last().bbox.spec_distance(
            lb,
            LAYOUT_DISTANCE_X_WEIGHT as int,
            LAYOUT_DISTANCE_Y_WEIGHT as int,
        ) < els[rest].bbox.spec_distance(
            lb,
            LAYOUT_DISTANCE_X_WEIGHT as int,
            LAYOUT_DISTANCE_Y_WEIGHT as int,
        ) {
            els.len() - 1
        } else {
            rest
        }
    }
}

proof fn lemma_argmin_dist_el_range(els: Seq<ElementV>, lb: BBox)
    requires
        els.len() > 0,
    ensures
        0 <= spec_argmin_dist_el(els, lb) < els.len(),
    decreases els.len(),
{
    if els.len() > 1 {
        lemma_argmin_dist_el_range(els.drop_last(), lb);
    }
}

fn argmin_dist_el(els: &Vec<Element>, lb: &BBox) -> (r: usize)
    requires
        els@.len() > 0,
        lb.wf(),
        forall|i: int| 0 <= i < els@.len() ==> (#[trigger] els@[i]).bbox.wf(),
    ensures
        r < els@.len(),
        r == spec_argmin_dist_el(els@.map_values(|e: Element| e@), *lb),
{
    let ghost evv = els@.map_values(|e: Element| e@);
    let mut best: usize = 0;
    let mut i: usize = 1;
    while i < els.len()
        invariant
            0 < i <= els@.len(),
            best < i,
            lb.wf(),
            evv == els@.map_values(|e: Element| e@),
            forall|k: int| 0 <= k < els@.len() ==> (#[trigger] els@[k]).bbox.wf(),
            best == spec_argmin_dist_el(evv.take(i as int), *lb),
        decreases els@.len() - i,
    {
        proof {
            lemma_argmin_dist_el_range(evv.take(i as int), *lb);
            assert(evv.take(i + 1).drop_last() =~= evv.take(i as int));
        }
        if els[i].bbox.distance(lb, LAYOUT_DISTANCE_X_WEIGHT, LAYOUT_DISTANCE_Y_WEIGHT)
            < els[best].bbox.distance(lb, LAYOUT_DISTANCE_X_WEIGHT, LAYOUT_DISTANCE_Y_WEIGHT) {
            best = i;
        }
        i += 1;
    }
    proof {
        assert(evv.take(els@.len() as int) =~= evv);
    }
    best
}

/// An element sequence after one unmatched region lands in it: a fresh
/// element (empty text, the region's box and mapped kind, interim id the
/// length before insertion) inserted next to the nearest element, or at
/// the end when there is none.
pub open spec fn spec_insert_one(els: Seq<ElementV>, region: LayoutBBox, page_id: PageID) -> Seq<
    ElementV,
> {
    let idx = if els.len() == 0 {
        0
    } else {
        spec_argmin_dist_el(els, region.bbox)
    };
    els.insert(
        idx,
        ElementV {
            id: els.len() as usize,
            layout_block_id: region.id,
            text: Seq::empty(),
            kind: crate::entities::spec_kind_of_label(region.label),
            page_id,
            bbox: region.bbox,
        },
    )
}

/// The elements after every unmatched region has been inserted, in order.
pub open spec fn spec_merge_remaining(
    els: Seq<ElementV>,
    boxes: Seq<LayoutBBox>,
    page_id: PageID,
) -> Seq<ElementV>
    decreases boxes.len(),
{
    if boxes.len() == 0 {
        els
    } else {
        spec_merge_remaining(spec_insert_one(els, boxes[0], page_id), boxes.drop_first(), page_id)
    }
}

/// Insert the layout regions that received no line into the element list,
/// each next to the element nearest to it (at the end when the list is
/// empty).
pub fn merge_remaining(elements: &mut Vec<Element>, remaining: &Vec<LayoutBBox>, page_id: PageID)
    requires
        forall|i: int| 0 <= i < old(elements)@.len() ==> (#[trigger] old(elements)@[i]).bbox.wf(),
        forall|i: int| 0 <= i < remaining@.len() ==> (#[trigger] remaining@[i]).bbox.wf(),
        old(elements)@.len() + remaining@.len() < usize::MAX,
    ensures
        final(elements)@.map_values(|e: Element| e@) == spec_merge_remaining(
            old(elements)@.map_values(|e: Element| e@),
            remaining@,
            page_id,
        ),
        forall|i: int| 0 <= i < final(elements)@.len() ==> (#[trigger] final(elements)@[i]).bbox.wf(),
{
    let ghost orig = elements@.map_values(|e: Element| e@);
    let mut i: usize = 0;
    proof {
        assert(remaining@.skip(0) =~= remaining@);
    }
    while i < remaining.len()
        invariant
            0 <= i <= remaining@.len(),
            forall|k: int| 0 <= k < remaining@.len() ==> (#[trigger] remaining@[k]).bbox.wf(),
            forall|k: int| 0 <= k < elements@.len() ==> (#[trigger] elements@[k]).bbox.wf(),
            elements@.len() == orig.len() + i,
            orig.len() + remaining@.len() < usize::MAX,
            spec_merge_remaining(orig, remaining@, page_id) == spec_merge_remaining(
                elements@.map_values(|e: Element| e@),
                remaining@.skip(i as int),
                page_id,
            ),
        decreases remaining@.len() - i,
    {
        let ghost before = elements@.map_values(|e: Element| e@);
        proof {
            assert(remaining@.skip(i as int)[0] == remaining@[i as int]);
            assert(remaining@.skip(i as int).drop_first() =~= remaining@.skip(i + 1));
        }
        let region = remaining[i];
        let idx = if elements.len() == 0 {
            0
        } else {
            argmin_dist_el(elements, &region.bbox)
        };
        let mut el = Element::from_layout_block(elements.len(), &region, page_id);
        elements.insert(idx, el);
        proof {
            assert(elements@.map_values(|e: Element| e@) =~= spec_insert_one(
                before,
                remaining@[i as int],
                page_id,
            ));
        }
        i += 1;
    }
    proof {
        assert(remaining@.skip(remaining@.len() as int) =~= Seq::<LayoutBBox>::empty());
    }
}

/// Whether some element is backed by the layout region with id `rid`.
pub open spec fn spec_has_block(els: Seq<ElementV>, rid: i32) -> bool {
    exists|k: int| 0 <= k < els.len() && (#[trigger] els[k]).layout_block_id == rid
}

/// The regions of `boxes` that no element of `els` is backed by, in order.
pub open spec fn spec_unmatched(boxes: Seq<LayoutBBox>, els: Seq<ElementV>) -> Seq<LayoutBBox>
    decreases boxes.len(),
{
    if boxes.len() == 0 {
        Seq::empty()
    } else if spec_has_block(els, boxes.last().id) {
        spec_unmatched(boxes.drop_last(), els)
    } else {
        spec_unmatched(boxes.drop_last(), els).push(boxes.last())
    }
}

/// The layout regions that received no line.
pub fn unmatched_regions(page_layout: &Vec<LayoutBBox>, elements: &Vec<Element>) -> (r: Vec<
    LayoutBBox,
>)
    ensures
        r@ == spec_unmatched(page_layout@, elements@.map_values(|e: Element| e@)),
{
    let ghost evv = elements@.map_values(|e: Element| e@);
    let mut out: Vec<LayoutBBox> = Vec::new();
    let mut i: usize = 0;
    while i < page_layout.len()
        invariant
            0 <= i <= page_layout@.len(),
            evv == elements@.map_values(|e: Element| e@),
            out@ == spec_unmatched(page_layout@.take(i as int), evv),
        decreases page_layout@.len() - i,
    {
        proof {
            assert(page_layout@.take(i + 1).drop_last() =~= page_layout@.take(i as int));
            assert(page_layout@.take(i + 1).last() == page_layout@[i as int]);
        }
        let b = page_layout[i];
        let at = find_block(elements, b.id);
        proof {
            lemma_find_block_props(evv, b.id);
            lemma_find_block_missing(evv, b.id);
        }
        if at >= elements.len() {
            out.push(b);
        }
        i += 1;
    }
    proof {
        assert(page_layout@.take(page_layout@.len() as int) =~= page_layout@);
    }
    out
}

/// When the search runs off the end, no element is backed by the region.
proof fn lemma_find_block_missing(bucket: Seq<ElementV>, rid: i32)
    ensures
        spec_find_block(bucket, rid) == bucket.len() ==> !spec_has_block(bucket, rid),
        spec_find_block(bucket, rid) < bucket.len() ==> spec_has_block(bucket, rid),
    decreases bucket.len(),
{
    lemma_find_block_props(bucket, rid);
    if bucket.len() > 0 && bucket[0].layout_block_id != rid {
        lemma_find_block_missing(bucket.drop_first(), rid);
        if spec_find_block(bucket, rid) == bucket.len() {
            assert forall|k: int|
                0 <= k < bucket.len() implies (#[trigger] bucket[k]).layout_block_id != rid by {
                if k > 0 {
                    assert(bucket.drop_first()[k - 1] == bucket[k]);
                }
            }
        } else {
            let k = spec_find_block(bucket, rid);
            assert(bucket[k].layout_block_id == rid);
        }
    }
}

/// The elements renumbered in place: each element's id becomes its
/// position.
pub open spec fn spec_renumber(els: Seq<ElementV>) -> Seq<ElementV> {
    Seq::new(els.len(), |i: int| ElementV { id: i as usize, ..els[i] })
}

pub fn renumber_elements(elements: &mut Vec<Element>)
    ensures
        final(elements)@.map_values(|e: Element| e@) == spec_renumber(
            old(elements)@.map_values(|e: Element| e@),
        ),
{
    let ghost orig = elements@.map_values(|e: Element| e@);
    let n = elements.len();
    let mut i: usize = 0;
    while i < n
        invariant
            0 <= i <= n,
            n == elements@.len(),
            orig.len() == n,
            forall|k: int| 0 <= k < i ==> (#[trigger] elements@[k])@ == (ElementV {
                id: k as usize,
                ..orig[k]
            }),
            forall|k: int| i <= k < n ==> (#[trigger] elements@[k])@ == orig[k],
        decreases n - i,
    {
        let mut el = elements.remove(i);
        el.id = i;
        elements.insert(i, el);
        i += 1;
    }
    proof {
        assert(elements@.map_values(|e: Element| e@) =~= spec_renumber(orig));
    }
}

/// The elements a page ends up with, from its detected regions and its
/// text lines: lines fused into role buckets, unmatched regions inserted
/// into the body, fresh ids in final order.
pub open spec fn spec_build_page_elements(
    boxes: Seq<LayoutBBox>,
    lines: Seq<LineV>,
    page_id: PageID,
    max_dist_q: int,
) -> Seq<ElementV> {
    let (h, b, f) = spec_fuse(boxes, lines, page_id, max_dist_q);
    let fused = h + b + f;
    spec_renumber(spec_merge_remaining(fused, spec_unmatched(boxes, fused), page_id))
}

/// Build a page's ordered element list (see the module description).
pub fn build_page_elements(
    page_layout: &Vec<LayoutBBox>,
    text_lines: &Vec<Line>,
    page_idx: PageID,
    max_dist_q: i64,
) -> (r: Vec<Element>)
    requires
        forall|i: int| 0 <= i < page_layout@.len() ==> (#[trigger] page_layout@[i]).bbox.wf(),
        forall|i: int| 0 <= i < text_lines@.len() ==> (#[trigger] text_lines@[i]).bbox.wf(),
        text_lines@.len() < usize::MAX,
        page_layout@.len() + text_lines@.len() < usize::MAX - 1,
    ensures
        r@.map_values(|e: Element| e@) == spec_build_page_elements(
            page_layout@,
            text_lines@.map_values(|l: Line| l@),
            page_idx,
            max_dist_q as int,
        ),
{
    let mut elements = merge_lines_layout(page_layout, text_lines, page_idx, max_dist_q);
    proof {
        let lv = text_lines@.map_values(|l: Line| l@);
        let trip = spec_fuse(page_layout@, lv, page_idx, max_dist_q as int);
        lemma_fuse_wf(page_layout@, lv, page_idx, max_dist_q as int);
        lemma_fuse_len(page_layout@, lv, page_idx, max_dist_q as int);
        let emap = elements@.map_values(|e: Element| e@);
        assert(emap == trip.0 + trip.1 + trip.2);
        assert(emap.len() <= lv.len());
        assert forall|i: int|
            0 <= i < elements@.len() implies (#[trigger] elements@[i]).bbox.wf() by {
            assert(emap[i] == elements@[i]@);
            if i < trip.0.len() {
                assert(emap[i] == trip.0[i]);
            } else if i < trip.0.len() + trip.1.len() {
                assert(emap[i] == trip.1[i - trip.0.len()]);
            } else {
                assert(emap[i] == trip.2[i - trip.0.len() - trip.1.len()]);
            }
        }
    }
    let unmatched = unmatched_regions(page_layout, &elements);
    proof {
        lemma_unmatched_sub(page_layout@, elements@.map_values(|e: Element| e@));
        assert(elements@.len() <= text_lines@.len());
        assert(unmatched@.len() <= page_layout@.len());
        assert forall|i: int|
            0 <= i < unmatched@.len() implies (#[trigger] unmatched@[i]).bbox.wf() by {
            let um = spec_unmatched(page_layout@, elements@.map_values(|e: Element| e@));
            assert(page_layout@.contains(um[i]));
            let k = choose|k: int| 0 <= k < page_layout@.len() && page_layout@[k] == um[i];
        }
    }
    merge_remaining(&mut elements, &unmatched, page_idx);
    renumber_elements(&mut elements);
    elements
}

/// Every fused element's box is a region's box, hence well-formed when
/// the regions are; and the buckets cannot outnumber the lines.
proof fn lemma_fuse_wf(
    boxes: Seq<LayoutBBox>,
    lines: Seq<LineV>,
    page_id: PageID,
    max_dist_q: int,
)
    requires
        forall|i: int| 0 <= i < boxes.len() ==> (#[trigger] boxes[i]).bbox.wf(),
    ensures
        ({
            let (h, b, f) = spec_fuse(boxes, lines, page_id, max_dist_q);
            &&& forall|i: int| 0 <= i < h.len() ==> (#[trigger] h[i]).bbox.wf()
            &&& forall|i: int| 0 <= i < b.len() ==> (#[trigger] b[i]).bbox.wf()
            &&& forall|i: int| 0 <= i < f.len() ==> (#[trigger] f[i]).bbox.wf()
        }),
    decreases lines.len(),
{
    if lines.len() > 0 {
        lemma_fuse_wf(boxes, lines.drop_last(), page_id, max_dist_q);
        let (h, b, f) = spec_fuse(boxes, lines.drop_last(), page_id, max_dist_q);
        let line = lines.last();
        match spec_line_match(boxes, line.bbox, max_dist_q) {
            None => {},
            Some(r) => {
                lemma_argmax_inter_props(boxes, line.bbox);
                lemma_argmin_dist_props(boxes, line.bbox);
                lemma_bucket_add_wf(h, boxes[r], line, page_id);
                lemma_bucket_add_wf(b, boxes[r], line, page_id);
                lemma_bucket_add_wf(f, boxes[r], line, page_id);
            },
        }
    }
}

proof fn lemma_bucket_add_wf(bucket: Seq<ElementV>, region: LayoutBBox, line: LineV, page_id: PageID)
    requires
        forall|i: int| 0 <= i < bucket.len() ==> (#[trigger] bucket[i]).bbox.wf(),
        region.bbox.wf(),
    ensures
        forall|i: int|
            0 <= i < spec_bucket_add(bucket, region, line, page_id).len() ==> (#[trigger] spec_bucket_add(
                bucket,
                region,
                line,
                page_id,
            )[i]).bbox.wf(),
{
    lemma_find_block_props(bucket, region.id);
}

/// Each bucket grows by at most one element per line.
proof fn lemma_fuse_len(boxes: Seq<LayoutBBox>, lines: Seq<LineV>, page_id: PageID, max_dist_q: int)
    ensures
        ({
            let (h, b, f) = spec_fuse(boxes, lines, page_id, max_dist_q);
            h.len() + b.len() + f.len() <= lines.len()
        }),
    decreases lines.len(),
{
    if lines.len() > 0 {
        lemma_fuse_len(boxes, lines.drop_last(), page_id, max_dist_q);
        let (h, b, f) = spec_fuse(boxes, lines.drop_last(), page_id, max_dist_q);
        let line = lines.last();
        match spec_line_match(boxes, line.bbox, max_dist_q) {
            None => {},
            Some(r) => {
                lemma_argmax_inter_props(boxes, line.bbox);
                lemma_argmin_dist_props(boxes, line.bbox);
                lemma_find_block_props(h, boxes[r].id);
                lemma_find_block_props(b, boxes[r].id);
                lemma_find_block_props(f, boxes[r].id);
            },
        }
    }
}

/// Unmatched regions are a selection of the page's regions, so their
/// boxes stay well-formed, and there are no more of them than regions.
proof fn lemma_unmatched_sub(boxes: Seq<LayoutBBox>, els: Seq<ElementV>)
    ensures
        spec_unmatched(boxes, els).len() <= boxes.len(),
        forall|i: int|
            0 <= i < spec_unmatched(boxes, els).len() ==> boxes.contains(
                #[trigger] spec_unmatched(boxes, els)[i],
            ),
    decreases boxes.len(),
{
    if boxes.len() > 0 {
        lemma_unmatched_sub(boxes.drop_last(), els);
        let rest = spec_unmatched(boxes.drop_last(), els);
        assert forall|i: int|
            0 <= i < spec_unmatched(boxes, els).len() implies boxes.contains(
            #[trigger] spec_unmatched(boxes, els)[i],
        ) by {
            if i < rest.len() {
                assert(boxes.drop_last().contains(rest[i]));
                let k = choose|k: int|
                    0 <= k < boxes.drop_last().len() && boxes.drop_last()[k] == rest[i];
                assert(boxes[k] == rest[i]);
            } else {
                assert(boxes[boxes.len() - 1] == spec_unmatched(boxes, els)[i]);
            }
        }
    }
}

} // verus!
