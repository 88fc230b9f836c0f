//! Class-agnostic non-maximum suppression of layout regions.
//!
//! Regions are ordered by descending confidence (a stable order: equal
//! confidences keep their input order) and swept greedily: a region is kept
//! exactly when no already-kept region overlaps it with a relaxed IoU above
//! the threshold. Labels are not consulted, so a confused duplicate label
//! still suppresses.

use vstd::prelude::*;
use vstd::multiset::Multiset;
use vstd::seq_lib::group_to_multiset_ensures;
use vstd::seq_lib::lemma_multiset_commutative;

use crate::geom::Ratio;
use crate::layout::LayoutBBox;

verus! {

/// Whether the relaxed IoU of `a` and `b` (overlap over the smaller area)
/// strictly exceeds `tn / td`.
pub open spec fn spec_riou_exceeds(a: LayoutBBox, b: LayoutBBox, tn: int, td: int) -> bool {
    let small = if a.bbox.spec_area() <= b.bbox.spec_area() {
        a.bbox.spec_area()
    } else {
        b.bbox.spec_area()
    };
    (Ratio { num: a.bbox.spec_intersection(b.bbox) as i64, den: small as i64 }).spec_exceeds(
        tn,
        td,
    )
}

/// Relaxed IoU does not depend on the order of its two boxes.
pub proof fn lemma_riou_symmetric(a: LayoutBBox, b: LayoutBBox, tn: int, td: int)
    requires
        a.bbox.wf(),
        b.bbox.wf(),
    ensures
        spec_riou_exceeds(a, b, tn, td) == spec_riou_exceeds(b, a, tn, td),
{
    crate::geom::lemma_iou_props(a.bbox, b.bbox);
    crate::geom::lemma_iou_props(b.bbox, a.bbox);
}

fn riou_exceeds(a: &LayoutBBox, b: &LayoutBBox, tn: i64, td: i64) -> (r: bool)
    requires
        a.bbox.wf(),
        b.bbox.wf(),
        0 <= tn <= 0x1000,
        0 < td <= 0x1000,
    ensures
        r == spec_riou_exceeds(*a, *b, tn as int, td as int),
{
    let ratio = a.bbox.relaxed_iou(&b.bbox);
    ratio.exceeds(tn, td)
}

/// Index of the highest-confidence region, the first one on ties.
pub open spec fn spec_first_max(s: Seq<LayoutBBox>) -> int
    decreases s.len(),
{
    if s.len() <= 1 {
        0
    } else {
        let rest = spec_first_max(s.drop_last());
        if s.last().proba > s[rest].proba {
            s.len() - 1
        } else {
            rest
        }
    }
}

pub proof fn lemma_first_max_props(s: Seq<LayoutBBox>)
    requires
        s.len() > 0,
    ensures
        0 <= spec_first_max(s) < s.len(),
        forall|i: int| 0 <= i < s.len() ==> (#[trigger] s[i]).proba <= s[spec_first_max(s)].proba,
        forall|i: int| 0 <= i < spec_first_max(s) ==> (#[trigger] s[i]).proba < s[spec_first_max(
            s,
        )].proba,
    decreases s.len(),
{
    if s.len() > 1 {
        lemma_first_max_props(s.drop_last());
        let rest = spec_first_max(s.drop_last());
        assert forall|i: int| 0 <= i < s.len() implies (#[trigger] s[i]).proba <= s[spec_first_max(
            s,
        )].proba by {
            if i < s.len() - 1 {
                assert(s.drop_last()[i] == s[i]);
                assert(s.drop_last()[rest] == s[rest]);
            }
        }
        assert forall|i: int| 0 <= i < spec_first_max(s) implies (#[trigger] s[i]).proba
            < s[spec_first_max(s)].proba by {
            if i < s.len() - 1 {
                assert(s.drop_last()[i] == s[i]);
            }
        }
    }
}

fn first_max_index(v: &Vec<LayoutBBox>) -> (r: usize)
    requires
        v@.len() > 0,
    ensures
        r < v@.len(),
        r == spec_first_max(v@),
{
    let mut best: usize = 0;
    let mut i: usize = 1;
    while i < v.len()
        invariant
            0 < i <= v@.len(),
            best < i,
            best == spec_first_max(v@.take(i as int)),
        decreases v@.len() - i,
    {
        proof {
            lemma_first_max_props(v@.take(i as int));
            assert(v@.take(i + 1).drop_last() =~= v@.take(i as int));
        }
        if v[i].proba > v[best].proba {
            best = i;
        }
        i += 1;
    }
    proof {
        assert(v@.take(v@.len() as int) =~= v@);
    }
    best
}

/// The regions in order of descending confidence; equal confidences keep
/// their input order (the sort repeatedly extracts the first maximum).
pub open spec fn spec_sort_desc(s: Seq<LayoutBBox>) -> Seq<LayoutBBox>
    decreases s.len(),
{
    if s.len() == 0 {
        Seq::empty()
    } else {
        let m = spec_first_max(s);
        if 0 <= m < s.len() {
            seq![s[m]] + spec_sort_desc(s.remove(m))
        } else {
            Seq::empty()
        }
    }
}

/// Sorting keeps exactly the input regions, counted with multiplicity.
pub proof fn lemma_sort_desc_multiset(s: Seq<LayoutBBox>)
    ensures
        spec_sort_desc(s).to_multiset() == s.to_multiset(),
        spec_sort_desc(s).len() == s.len(),
    decreases s.len(),
{
    broadcast use group_to_multiset_ensures;

    if s.len() > 0 {
        let m = spec_first_max(s);
        lemma_first_max_props(s);
        lemma_sort_desc_multiset(s.remove(m));
        lemma_multiset_commutative(seq![s[m]], spec_sort_desc(s.remove(m)));
        assert(seq![s[m]].to_multiset() =~= Seq::<LayoutBBox>::empty().push(s[m]).to_multiset());
        assert(Seq::<LayoutBBox>::empty().push(s[m]).to_multiset() =~= Multiset::<
            LayoutBBox,
        >::empty().insert(s[m]));
        assert(s.remove(m).to_multiset() =~= s.to_multiset().remove(s[m]));
        assert(s.to_multiset().contains(s[m]));
        assert(spec_sort_desc(s).to_multiset() =~= s.to_multiset());
    }
}

/// The sorted sequence is ordered by descending confidence.
pub proof fn lemma_sort_desc_sorted(s: Seq<LayoutBBox>)
    ensures
        forall|i: int, j: int|
            0 <= i < j < spec_sort_desc(s).len() ==> (#[trigger] spec_sort_desc(s)[i]).proba >= (
            #[trigger] spec_sort_desc(s)[j]).proba,
    decreases s.len(),
{
    broadcast use group_to_multiset_ensures;

    if s.len() > 0 {
        let m = spec_first_max(s);
        lemma_first_max_props(s);
        let rest = s.remove(m);
        lemma_sort_desc_sorted(rest);
        lemma_sort_desc_multiset(rest);
        let out = spec_sort_desc(s);
        assert forall|i: int, j: int|
            0 <= i < j < out.len() implies (#[trigger] out[i]).proba >= (
        #[trigger] out[j]).proba by {
            if i > 0 {
                assert(out[i] == spec_sort_desc(rest)[i - 1]);
                assert(out[j] == spec_sort_desc(rest)[j - 1]);
            } else {
                assert(out[j] == spec_sort_desc(rest)[j - 1]);
                assert(spec_sort_desc(rest).contains(spec_sort_desc(rest)[j - 1]));
                assert(spec_sort_desc(rest).to_multiset().contains(spec_sort_desc(rest)[j - 1]));
                assert(rest.to_multiset().contains(spec_sort_desc(rest)[j - 1]));
                assert(rest.contains(spec_sort_desc(rest)[j - 1]));
                let k = choose|k: int| 0 <= k < rest.len() && rest[k] == spec_sort_desc(rest)[j - 1];
                assert(rest[k] == if k < m {
                    s[k]
                } else {
                    s[k + 1]
                });
                assert(out[0] == s[m]);
            }
        }
    }
}

/// Every sorted region is one of the input's.
pub proof fn lemma_sort_desc_provenance(s: Seq<LayoutBBox>)
    ensures
        forall|i: int|
            0 <= i < spec_sort_desc(s).len() ==> s.contains(#[trigger] spec_sort_desc(s)[i]),
{
    broadcast use group_to_multiset_ensures;

    lemma_sort_desc_multiset(s);
    assert forall|i: int| 0 <= i < spec_sort_desc(s).len() implies s.contains(
        #[trigger] spec_sort_desc(s)[i],
    ) by {
        assert(spec_sort_desc(s).contains(spec_sort_desc(s)[i]));
        assert(spec_sort_desc(s).to_multiset().contains(spec_sort_desc(s)[i]));
    }
}

/// The greedy sweep: walk `s` in order, keeping a region exactly when no
/// already-kept region overlaps it beyond the threshold.
pub open spec fn spec_sweep(s: Seq<LayoutBBox>, kept: Seq<LayoutBBox>, tn: int, td: int) -> Seq<
    LayoutBBox,
>
    decreases s.len(),
{
    if s.len() == 0 {
        kept
    } else if exists|k: int| 0 <= k < kept.len() && spec_riou_exceeds(kept[k], s[0], tn, td) {
        spec_sweep(s.drop_first(), kept, tn, td)
    } else {
        spec_sweep(s.drop_first(), kept.push(s[0]), tn, td)
    }
}

/// What the sweep guarantees: already-kept regions stay, as a prefix; no
/// two regions of the result overlap beyond the threshold; every result
/// region comes from `kept` or `s`.
pub proof fn lemma_sweep_props(s: Seq<LayoutBBox>, kept: Seq<LayoutBBox>, tn: int, td: int)
    requires
        forall|i: int, j: int|
            0 <= i < j < kept.len() ==> !spec_riou_exceeds(#[trigger] kept[i], #[trigger] kept[j], tn, td),
    ensures
        spec_sweep(s, kept, tn, td).len() >= kept.len(),
        forall|i: int| 0 <= i < kept.len() ==> #[trigger] spec_sweep(s, kept, tn, td)[i] == kept[i],
        forall|i: int, j: int|
            0 <= i < j < spec_sweep(s, kept, tn, td).len() ==> !spec_riou_exceeds(
                #[trigger] spec_sweep(s, kept, tn, td)[i],
                #[trigger] spec_sweep(s, kept, tn, td)[j],
                tn,
                td,
            ),
        forall|i: int|
            0 <= i < spec_sweep(s, kept, tn, td).len() ==> kept.contains(
                #[trigger] spec_sweep(s, kept, tn, td)[i],
            ) || s.contains(spec_sweep(s, kept, tn, td)[i]),
    decreases s.len(),
{
    if s.len() == 0 {
    } else if exists|k: int| 0 <= k < kept.len() && spec_riou_exceeds(kept[k], s[0], tn, td) {
        lemma_sweep_props(s.drop_first(), kept, tn, td);
        assert forall|i: int|
            0 <= i < spec_sweep(s, kept, tn, td).len() implies kept.contains(
            #[trigger] spec_sweep(s, kept, tn, td)[i],
        ) || s.contains(spec_sweep(s, kept, tn, td)[i]) by {
            if s.drop_first().contains(spec_sweep(s, kept, tn, td)[i]) {
                let k = choose|k: int|
                    0 <= k < s.drop_first().len() && s.drop_first()[k] == spec_sweep(
                        s,
                        kept,
                        tn,
                        td,
                    )[i];
                assert(s[k + 1] == spec_sweep(s, kept, tn, td)[i]);
            }
        }
    } else {
        let kept2 = kept.push(s[0]);
        assert forall|i: int, j: int| 0 <= i < j < kept2.len() implies !spec_riou_exceeds(
            #[trigger] kept2[i],
            #[trigger] kept2[j],
            tn,
            td,
        ) by {
            if j == kept.len() {
                assert(kept2[j] == s[0]);
                assert(!spec_riou_exceeds(kept[i], s[0], tn, td));
            }
        }
        lemma_sweep_props(s.drop_first(), kept2, tn, td);
        assert forall|i: int|
            0 <= i < spec_sweep(s, kept, tn, td).len() implies kept.contains(
            #[trigger] spec_sweep(s, kept, tn, td)[i],
        ) || s.contains(spec_sweep(s, kept, tn, td)[i]) by {
            let x = spec_sweep(s, kept, tn, td)[i];
            if kept2.contains(x) {
                let k = choose|k: int| 0 <= k < kept2.len() && kept2[k] == x;
                if k == kept.len() {
                    assert(s[0] == x);
                } else {
                    assert(kept[k] == x);
                }
            } else if s.drop_first().contains(x) {
                let k = choose|k: int| 0 <= k < s.drop_first().len() && s.drop_first()[k] == x;
                assert(s[k + 1] == x);
            }
        }
    }
}

/// With nothing kept yet, the first (highest-confidence) region always
/// survives the sweep.
pub proof fn lemma_sweep_keeps_first(s: Seq<LayoutBBox>, tn: int, td: int)
    requires
        s.len() > 0,
    ensures
        spec_sweep(s, Seq::empty(), tn, td).len() >= 1,
        spec_sweep(s, Seq::empty(), tn, td)[0] == s[0],
{
    let kept: Seq<LayoutBBox> = Seq::empty();
    assert(!(exists|k: int| 0 <= k < kept.len() && spec_riou_exceeds(kept[k], s[0], tn, td)));
    lemma_sweep_props(s.drop_first(), kept.push(s[0]), tn, td);
}

fn overlaps_kept(kept: &Vec<LayoutBBox>, candidate: &LayoutBBox, tn: i64, td: i64) -> (r: bool)
    requires
        forall|i: int| 0 <= i < kept@.len() ==> (#[trigger] kept@[i]).bbox.wf(),
        candidate.bbox.wf(),
        0 <= tn <= 0x1000,
        0 < td <= 0x1000,
    ensures
        r == exists|k: int|
            0 <= k < kept@.len() && spec_riou_exceeds(#[trigger] kept@[k], *candidate, tn as int, td as int),
{
    let mut k: usize = 0;
    while k < kept.len()
        invariant
            0 <= k <= kept@.len(),
            forall|i: int| 0 <= i < kept@.len() ==> (#[trigger] kept@[i]).bbox.wf(),
            candidate.bbox.wf(),
            0 <= tn <= 0x1000,
            0 < td <= 0x1000,
            forall|i: int|
                0 <= i < k ==> !spec_riou_exceeds(#[trigger] kept@[i], *candidate, tn as int, td as int),
        decreases kept@.len() - k,
    {
        if riou_exceeds(&kept[k], candidate, tn, td) {
            return true;
        }
        k += 1;
    }
    false
}

/// Suppress overlapping regions in place, class-agnostically: order by
/// descending confidence (stable), then keep each region exactly when no
/// already-kept one overlaps it with relaxed IoU above `tn / td`. No two
/// survivors overlap beyond the threshold, every survivor is one of the
/// input regions, and the highest-confidence region always survives.
pub fn nms(raw_bboxes: &mut Vec<LayoutBBox>, threshold_num: i64, threshold_den: i64)
    requires
        forall|i: int| 0 <= i < old(raw_bboxes)@.len() ==> (#[trigger] old(raw_bboxes)@[i]).bbox.wf(),
        0 <= threshold_num <= 0x1000,
        0 < threshold_den <= 0x1000,
    ensures
        final(raw_bboxes)@ == spec_sweep(
            spec_sort_desc(old(raw_bboxes)@),
            Seq::empty(),
            threshold_num as int,
            threshold_den as int,
        ),
        forall|i: int, j: int|
            0 <= i < j < final(raw_bboxes)@.len() ==> !spec_riou_exceeds(
                #[trigger] final(raw_bboxes)@[i],
                #[trigger] final(raw_bboxes)@[j],
                threshold_num as int,
                threshold_den as int,
            ),
        forall|i: int|
            0 <= i < final(raw_bboxes)@.len() ==> old(raw_bboxes)@.contains(
                #[trigger] final(raw_bboxes)@[i],
            ),
        old(raw_bboxes)@.len() > 0 ==> (final(raw_bboxes)@.len() >= 1 && (forall|i: int|
            0 <= i < old(raw_bboxes)@.len() ==> (#[trigger] old(raw_bboxes)@[i]).proba
                <= final(raw_bboxes)@[0].proba)),
{
    let ghost orig = raw_bboxes@;
    let ghost tn = threshold_num as int;
    let ghost td = threshold_den as int;

    // Stable descending sort by confidence: repeatedly extract the first
    // maximum.
    let mut work: Vec<LayoutBBox> = Vec::new();
    core::mem::swap(raw_bboxes, &mut work);
    let mut sorted: Vec<LayoutBBox> = Vec::new();
    while work.len() > 0
        invariant
            spec_sort_desc(orig) == sorted@ + spec_sort_desc(work@),
            forall|i: int| 0 <= i < work@.len() ==> (#[trigger] work@[i]).bbox.wf(),
            forall|i: int| 0 <= i < sorted@.len() ==> (#[trigger] sorted@[i]).bbox.wf(),
        decreases work@.len(),
    {
        let ghost before = work@;
        let m = first_max_index(&work);
        let x = work[m];
        sorted.push(x);
        work.remove(m);
        proof {
            assert(spec_sort_desc(before) == seq![before[m as int]] + spec_sort_desc(
                before.remove(m as int),
            ));
            assert(sorted@ + spec_sort_desc(work@) =~= spec_sort_desc(orig));
        }
    }
    proof {
        assert(sorted@ + spec_sort_desc(work@) =~= sorted@);
        assert(sorted@ == spec_sort_desc(orig));
        lemma_sort_desc_multiset(orig);
        lemma_sort_desc_sorted(orig);
        lemma_sort_desc_provenance(orig);
    }
    // Greedy sweep against the regions kept so far.
    let mut kept: Vec<LayoutBBox> = Vec::new();
    let mut i: usize = 0;
    proof {
        assert(sorted@.skip(0) =~= sorted@);
    }
    while i < sorted.len()
        invariant
            0 <= i <= sorted@.len(),
            sorted@ == spec_sort_desc(orig),
            forall|k: int| 0 <= k < sorted@.len() ==> (#[trigger] sorted@[k]).bbox.wf(),
            forall|k: int| 0 <= k < kept@.len() ==> (#[trigger] kept@[k]).bbox.wf(),
            forall|p: int, q: int|
                0 <= p < q < kept@.len() ==> !spec_riou_exceeds(#[trigger] kept@[p], #[trigger] kept@[q], tn, td),
            spec_sweep(sorted@.skip(i as int), kept@, tn, td) == spec_sweep(
                sorted@,
                Seq::empty(),
                tn,
                td,
            ),
            0 <= threshold_num <= 0x1000,
            0 < threshold_den <= 0x1000,
            tn == threshold_num as int,
            td == threshold_den as int,
        decreases sorted@.len() - i,
    {
        proof {
            assert(sorted@.skip(i as int).drop_first() =~= sorted@.skip(i + 1));
            assert(sorted@.skip(i as int)[0] == sorted@[i as int]);
        }
        let candidate = sorted[i];
        if !overlaps_kept(&kept, &candidate, threshold_num, threshold_den) {
            kept.push(candidate);
        }
        i += 1;
    }
    proof {
        assert(sorted@.skip(sorted@.len() as int) =~= Seq::<LayoutBBox>::empty());
        assert(kept@ == spec_sweep(sorted@, Seq::empty(), tn, td));
        lemma_sweep_props(sorted@, Seq::empty(), tn, td);
        assert forall|k: int| 0 <= k < kept@.len() implies orig.contains(#[trigger] kept@[k]) by {
            assert(Seq::<LayoutBBox>::empty().contains(kept@[k]) || sorted@.contains(kept@[k]));
        }
        if orig.len() > 0 {
            lemma_sweep_keeps_first(sorted@, tn, td);
            lemma_first_max_props(orig);
            assert(sorted@[0] == orig[spec_first_max(orig)]);
        }
    }
    *raw_bboxes = kept;
}

} // verus!
