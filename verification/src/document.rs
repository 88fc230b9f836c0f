//! Cross-page assembly: completed pages are put in page order, their
//! elements concatenated, titles labeled and blocks merged into the final
//! document. A single bad page never prevents a document: recovery is
//! page-local, the merger simply sees fewer elements. Only a failed
//! document load, an out-of-bounds page range or a cancellation is fatal.

use vstd::prelude::*;
use vstd::multiset::Multiset;
use vstd::seq_lib::group_to_multiset_ensures;
use vstd::seq_lib::lemma_multiset_commutative;

use crate::blocks::Block;
use crate::entities::{DocumentMetadata, Element, ElementType, ElementV, Page, StructuredPage};
use crate::error::FerrulesError;
use crate::merge::{merge_elements_into_blocks, spec_merge_blocks};
use crate::titles::TitleLevelEntry;

verus! {

/// Mathematical model of a `StructuredPage`.
pub struct StructuredPageV {
    pub id: usize,
    pub width: i64,
    pub height: i64,
    pub need_ocr: bool,
    pub elements: Seq<ElementV>,
}

impl View for StructuredPage {
    type V = StructuredPageV;

    open spec fn view(&self) -> StructuredPageV {
        StructuredPageV {
            id: self.id,
            width: self.width,
            height: self.height,
            need_ocr: self.need_ocr,
            elements: self.elements@.map_values(|e: Element| e@),
        }
    }
}

/// A structured page is consistent when every element it holds carries
/// the page's own id.
pub open spec fn spec_spage_wf(p: StructuredPageV) -> bool {
    forall|i: int| 0 <= i < p.elements.len() ==> (#[trigger] p.elements[i]).page_id == p.id
}

/// Options of one parse run.
#[derive(Debug, Clone)]
pub struct FerrulesParseConfig {
    /// Password for encrypted documents.
    pub password: Option<String>,
    /// Whether form fields and annotations are flattened into page
    /// content before extraction.
    pub flatten_pdf: bool,
    /// Pages to process, 0-based and half-open; an end past the document
    /// is a fatal error.
    pub page_range: Option<(usize, usize)>,
    /// Directory for intermediate debug output, when set.
    pub debug_dir: Option<String>,
}

impl Default for FerrulesParseConfig {
    /// Parse every page of an unencrypted document, flattening first.
    fn default() -> (r: Self)
        ensures
            r.password is None,
            r.flatten_pdf,
            r.page_range is None,
            r.debug_dir is None,
    {
        FerrulesParseConfig { password: None, flatten_pdf: true, page_range: None, debug_dir: None }
    }
}

/// The final document: its pages, its ordered blocks, and metadata.
#[derive(Debug)]
pub struct ParsedDocument {
    pub doc_name: String,
    pub pages: Vec<Page>,
    pub blocks: Vec<Block>,
    pub debug_path: Option<String>,
    pub metadata: DocumentMetadata,
}

/// Index of the page with the smallest id, the first one on ties.
pub open spec fn spec_first_min_page(s: Seq<StructuredPageV>) -> int
    decreases s.len(),
{
    if s.len() <= 1 {
        0
    } else {
        let rest = spec_first_min_page(s.drop_last());
        if s.last().id < s[rest].id {
            s.len() - 1
        } else {
            rest
        }
    }
}

proof fn lemma_first_min_page_props(s: Seq<StructuredPageV>)
    requires
        s.len() > 0,
    ensures
        0 <= spec_first_min_page(s) < s.len(),
        forall|i: int|
            0 <= i < s.len() ==> (#[trigger] s[i]).id >= s[spec_first_min_page(s)].id,
    decreases s.len(),
{
    if s.len() > 1 {
        lemma_first_min_page_props(s.drop_last());
        let rest = spec_first_min_page(s.drop_last());
        assert forall|i: int| 0 <= i < s.len() implies (#[trigger] s[i]).id >= s[spec_first_min_page(
            s,
        )].id by {
            if i < s.len() - 1 {
                assert(s.drop_last()[i] == s[i]);
                assert(s.drop_last()[rest] == s[rest]);
            }
        }
    }
}

/// The pages in ascending id order; equal ids keep their input order (the
/// sort repeatedly extracts the first minimum).
pub open spec fn spec_sort_pages(s: Seq<StructuredPageV>) -> Seq<StructuredPageV>
    decreases s.len(),
{
    if s.len() == 0 {
        Seq::empty()
    } else {
        let m = spec_first_min_page(s);
        if 0 <= m < s.len() {
            seq![s[m]] + spec_sort_pages(s.remove(m))
        } else {
            Seq::empty()
        }
    }
}

/// Sorting keeps exactly the input pages, counted with multiplicity.
pub proof fn lemma_sort_pages_multiset(s: Seq<StructuredPageV>)
    ensures
        spec_sort_pages(s).to_multiset() == s.to_multiset(),
        spec_sort_pages(s).len() == s.len(),
    decreases s.len(),
{
    broadcast use group_to_multiset_ensures;

    if s.len() > 0 {
        let m = spec_first_min_page(s);
        lemma_first_min_page_props(s);
        lemma_sort_pages_multiset(s.remove(m));
        lemma_multiset_commutative(seq![s[m]], spec_sort_pages(s.remove(m)));
        assert(seq![s[m]].to_multiset() =~= Seq::<StructuredPageV>::empty().push(
            s[m],
        ).to_multiset());
        assert(Seq::<StructuredPageV>::empty().push(s[m]).to_multiset() =~= Multiset::<
            StructuredPageV,
        >::empty().insert(s[m]));
        assert(s.remove(m).to_multiset() =~= s.to_multiset().remove(s[m]));
        assert(s.to_multiset().contains(s[m]));
        assert(spec_sort_pages(s).to_multiset() =~= s.to_multiset());
    }
}

/// The sorted pages are in non-decreasing id order.
pub proof fn lemma_sort_pages_sorted(s: Seq<StructuredPageV>)
    ensures
        forall|i: int, j: int|
            0 <= i < j < spec_sort_pages(s).len() ==> (#[trigger] spec_sort_pages(s)[i]).id <= (
            #[trigger] spec_sort_pages(s)[j]).id,
    decreases s.len(),
{
    broadcast use group_to_multiset_ensures;

    if s.len() > 0 {
        let m = spec_first_min_page(s);
        lemma_first_min_page_props(s);
        let rest = s.remove(m);
        lemma_sort_pages_sorted(rest);
        lemma_sort_pages_multiset(rest);
        let out = spec_sort_pages(s);
        assert forall|i: int, j: int| 0 <= i < j < out.len() implies (#[trigger] out[i]).id <= (
        #[trigger] out[j]).id by {
            if i > 0 {
                assert(out[i] == spec_sort_pages(rest)[i - 1]);
                assert(out[j] == spec_sort_pages(rest)[j - 1]);
            } else {
                assert(out[j] == spec_sort_pages(rest)[j - 1]);
                assert(spec_sort_pages(rest).contains(spec_sort_pages(rest)[j - 1]));
                assert(spec_sort_pages(rest).to_multiset().contains(spec_sort_pages(rest)[j - 1]));
                assert(rest.to_multiset().contains(spec_sort_pages(rest)[j - 1]));
                assert(rest.contains(spec_sort_pages(rest)[j - 1]));
                let k = choose|k: int|
                    0 <= k < rest.len() && rest[k] == spec_sort_pages(rest)[j - 1];
                assert(rest[k] == if k < m {
                    s[k]
                } else {
                    s[k + 1]
                });
                assert(out[0] == s[m]);
            }
        }
    }
}

/// Every sorted page is one of the input's.
pub proof fn lemma_sort_pages_provenance(s: Seq<StructuredPageV>)
    ensures
        forall|i: int|
            0 <= i < spec_sort_pages(s).len() ==> s.contains(#[trigger] spec_sort_pages(s)[i]),
{
    broadcast use group_to_multiset_ensures;

    lemma_sort_pages_multiset(s);
    assert forall|i: int| 0 <= i < spec_sort_pages(s).len() implies s.contains(
        #[trigger] spec_sort_pages(s)[i],
    ) by {
        assert(spec_sort_pages(s).contains(spec_sort_pages(s)[i]));
        assert(spec_sort_pages(s).to_multiset().contains(spec_sort_pages(s)[i]));
    }
}

fn first_min_page_index(v: &Vec<StructuredPage>) -> (r: usize)
    requires
        v@.len() > 0,
    ensures
        r < v@.len(),
        r == spec_first_min_page(v@.map_values(|p: StructuredPage| p@)),
{
    let ghost pv = v@.map_values(|p: StructuredPage| p@);
    let mut best: usize = 0;
    let mut i: usize = 1;
    while i < v.len()
        invariant
            0 < i <= v@.len(),
            best < i,
            pv == v@.map_values(|p: StructuredPage| p@),
            best == spec_first_min_page(pv.take(i as int)),
        decreases v@.len() - i,
    {
        proof {
            lemma_first_min_page_props(pv.take(i as int));
            assert(pv.take(i + 1).drop_last() =~= pv.take(i as int));
        }
        if v[i].id < v[best].id {
            best = i;
        }
        i += 1;
    }
    proof {
        assert(pv.take(v@.len() as int) =~= pv);
    }
    best
}

/// Sort completed pages by page id, ascending and stable.
pub fn sort_pages(pages: Vec<StructuredPage>) -> (r: Vec<StructuredPage>)
    ensures
        r@.map_values(|p: StructuredPage| p@) == spec_sort_pages(
            pages@.map_values(|p: StructuredPage| p@),
        ),
{
    let ghost orig = pages@.map_values(|p: StructuredPage| p@);
    let mut work = pages;
    let mut out: Vec<StructuredPage> = Vec::new();
    while work.len() > 0
        invariant
            spec_sort_pages(orig) == out@.map_values(|p: StructuredPage| p@) + spec_sort_pages(
                work@.map_values(|p: StructuredPage| p@),
            ),
        decreases work@.len(),
    {
        let ghost before = work@.map_values(|p: StructuredPage| p@);
        let m = first_min_page_index(&work);
        let x = work.remove(m);
        proof {
            assert(x@ == before[m as int]);
            assert(work@.map_values(|p: StructuredPage| p@) =~= before.remove(m as int));
            assert(spec_sort_pages(before) == seq![before[m as int]] + spec_sort_pages(
                before.remove(m as int),
            ));
        }
        out.push(x);
        proof {
            assert(out@.map_values(|p: StructuredPage| p@) + spec_sort_pages(
                work@.map_values(|p: StructuredPage| p@),
            ) =~= spec_sort_pages(orig));
        }
    }
    proof {
        assert(work@.map_values(|p: StructuredPage| p@) =~= Seq::<StructuredPageV>::empty());
        assert(out@.map_values(|p: StructuredPage| p@) + Seq::<StructuredPageV>::empty()
            =~= out@.map_values(|p: StructuredPage| p@));
    }
    out
}

/// All the pages' elements, in page order.
pub open spec fn spec_concat_elements(pages: Seq<StructuredPageV>) -> Seq<ElementV>
    decreases pages.len(),
{
    if pages.len() == 0 {
        Seq::empty()
    } else {
        spec_concat_elements(pages.drop_last()) + pages.last().elements
    }
}

/// Concatenating consistent pages in non-decreasing id order gives an
/// element stream whose page ids never decrease.
pub proof fn lemma_concat_sorted(pages: Seq<StructuredPageV>)
    requires
        forall|i: int| 0 <= i < pages.len() ==> spec_spage_wf(#[trigger] pages[i]),
        forall|i: int, j: int|
            0 <= i < j < pages.len() ==> (#[trigger] pages[i]).id <= (#[trigger] pages[j]).id,
    ensures
        forall|i: int, j: int|
            0 <= i < j < spec_concat_elements(pages).len() ==> (#[trigger] spec_concat_elements(
                pages,
            )[i]).page_id <= (#[trigger] spec_concat_elements(pages)[j]).page_id,
        pages.len() > 0 ==> forall|i: int|
            0 <= i < spec_concat_elements(pages).len() ==> (#[trigger] spec_concat_elements(
                pages,
            )[i]).page_id >= pages[0].id,
    decreases pages.len(),
{
    if pages.len() > 0 {
        let pre = pages.drop_last();
        assert forall|i: int| 0 <= i < pre.len() implies spec_spage_wf(#[trigger] pre[i]) by {
            assert(pre[i] == pages[i]);
        }
        lemma_concat_sorted(pre);
        let whole = spec_concat_elements(pages);
        let front = spec_concat_elements(pre);
        let lastp = pages.last();
        assert forall|i: int, j: int| 0 <= i < j < whole.len() implies (
        #[trigger] whole[i]).page_id <= (#[trigger] whole[j]).page_id by {
            if j >= front.len() {
                assert(whole[j] == lastp.elements[j - front.len()]);
                assert(whole[j].page_id == lastp.id);
                if i < front.len() {
                    assert(whole[i] == front[i]);
                    if pre.len() > 0 {
                        assert(whole[i].page_id <= lastp.id) by {
                            lemma_concat_element_page(pre, i);
                        }
                    }
                } else {
                    assert(whole[i] == lastp.elements[i - front.len()]);
                }
            } else {
                assert(whole[i] == front[i]);
                assert(whole[j] == front[j]);
            }
        }
        assert forall|i: int| 0 <= i < whole.len() implies (#[trigger] whole[i]).page_id
            >= pages[0].id by {
            if i < front.len() {
                assert(whole[i] == front[i]);
                if pre.len() > 0 {
                    assert(pre[0] == pages[0]);
                }
            } else {
                assert(whole[i] == lastp.elements[i - front.len()]);
                if pages.len() > 1 {
                    assert(pages[0].id <= lastp.id);
                }
            }
        }
    }
}

/// Every element of the concatenation carries the id of one of the pages,
/// no later than the last page's.
proof fn lemma_concat_element_page(pages: Seq<StructuredPageV>, i: int)
    requires
        forall|k: int| 0 <= k < pages.len() ==> spec_spage_wf(#[trigger] pages[k]),
        forall|k1: int, k2: int|
            0 <= k1 < k2 < pages.len() ==> (#[trigger] pages[k1]).id <= (#[trigger] pages[k2]).id,
        pages.len() > 0,
        0 <= i < spec_concat_elements(pages).len(),
    ensures
        spec_concat_elements(pages)[i].page_id <= pages.last().id,
        spec_concat_elements(pages)[i].page_id >= pages[0].id,
    decreases pages.len(),
{
    let pre = pages.drop_last();
    let front = spec_concat_elements(pre);
    if i < front.len() {
        assert forall|k: int| 0 <= k < pre.len() implies spec_spage_wf(#[trigger] pre[k]) by {
            assert(pre[k] == pages[k]);
        }
        lemma_concat_element_page(pre, i);
        assert(spec_concat_elements(pages)[i] == front[i]);
        assert(pre.last() == pages[pages.len() - 2]);
        assert(pre[0] == pages[0]);
    } else {
        assert(spec_concat_elements(pages)[i] == pages.last().elements[i - front.len()]);
    }
}

/// Collect every page's elements, in page order.
pub fn collect_elements(pages: &Vec<StructuredPage>) -> (r: Vec<Element>)
    ensures
        r@.map_values(|e: Element| e@) == spec_concat_elements(
            pages@.map_values(|p: StructuredPage| p@),
        ),
{
    let ghost pv = pages@.map_values(|p: StructuredPage| p@);
    let mut out: Vec<Element> = Vec::new();
    let mut i: usize = 0;
    while i < pages.len()
        invariant
            0 <= i <= pages@.len(),
            pv == pages@.map_values(|p: StructuredPage| p@),
            out@.map_values(|e: Element| e@) == spec_concat_elements(pv.take(i as int)),
        decreases pages@.len() - i,
    {
        proof {
            assert(pv.take(i + 1).drop_last() =~= pv.take(i as int));
            assert(pv.take(i + 1).last() == pages@[i as int]@);
        }
        let ghost outer = out@.map_values(|e: Element| e@);
        let olen = out.len();
        let page = &pages[i];
        let mut k: usize = 0;
        while k < page.elements.len()
            invariant
                0 <= k <= page.elements@.len(),
                olen == outer.len(),
                out@.len() == olen + k,
                forall|q: int| 0 <= q < olen ==> (#[trigger] out@[q])@ == outer[q],
                forall|q: int|
                    olen <= q < out@.len() ==> (#[trigger] out@[q])@ == page.elements@[q - olen]@,
            decreases page.elements@.len() - k,
        {
            let el = page.elements[k].clone();
            out.push(el);
            k += 1;
        }
        proof {
            assert(out@.map_values(|e: Element| e@) =~= outer + page.elements@.map_values(
                |e: Element| e@,
            ));
            assert(outer + page.elements@.map_values(|e: Element| e@) =~= spec_concat_elements(
                pv.take(i + 1),
            ));
        }
        i += 1;
    }
    proof {
        assert(pv.take(pages@.len() as int) =~= pv);
    }
    out
}

/// The title and subtitle elements of the stream, in order.
pub open spec fn spec_title_elements(els: Seq<ElementV>) -> Seq<ElementV>
    decreases els.len(),
{
    if els.len() == 0 {
        Seq::empty()
    } else if els.last().kind == ElementType::Title || els.last().kind == ElementType::Subtitle {
        spec_title_elements(els.drop_last()).push(els.last())
    } else {
        spec_title_elements(els.drop_last())
    }
}

/// Keep only the title and subtitle elements.
pub fn title_elements(elements: &Vec<Element>) -> (r: Vec<Element>)
    ensures
        r@.map_values(|e: Element| e@) == spec_title_elements(
            elements@.map_values(|e: Element| e@),
        ),
{
    let ghost evv = elements@.map_values(|e: Element| e@);
    let mut out: Vec<Element> = Vec::new();
    let mut i: usize = 0;
    while i < elements.len()
        invariant
            0 <= i <= elements@.len(),
            evv == elements@.map_values(|e: Element| e@),
            out@.map_values(|e: Element| e@) == spec_title_elements(evv.take(i as int)),
        decreases elements@.len() - i,
    {
        proof {
            assert(evv.take(i + 1).drop_last() =~= evv.take(i as int));
            assert(evv.take(i + 1).last() == elements@[i as int]@);
        }
        let keep = match elements[i].kind {
            ElementType::Title => true,
            ElementType::Subtitle => true,
            _ => false,
        };
        if keep {
            let el = elements[i].clone();
            out.push(el);
            proof {
                assert(out@.map_values(|e: Element| e@) =~= spec_title_elements(evv.take(i + 1)));
            }
        }
        i += 1;
    }
    proof {
        assert(evv.take(elements@.len() as int) =~= evv);
    }
    out
}

/// Abort when the caller's cancellation predicate has fired: no new work
/// starts after a cancellation, though work already in flight may finish.
pub fn cancel_checkpoint(is_cancelled: bool) -> (r: Result<(), FerrulesError>)
    ensures
        is_cancelled <==> r is Err,
        r matches Err(e) ==> e == FerrulesError::Cancelled,
{
    if is_cancelled {
        Err(FerrulesError::Cancelled)
    } else {
        Ok(())
    }
}

/// Fail fast when a requested page range runs past the end of the
/// document; no page may be emitted once this check fails.
pub fn check_page_range(range_end: usize, page_count: usize) -> (r: Result<(), FerrulesError>)
    ensures
        range_end <= page_count <==> r is Ok,
        r matches Err(e) ==> e == (FerrulesError::PageRangeOutOfBounds {
            end: range_end,
            len: page_count,
        }),
{
    if range_end > page_count {
        Err(FerrulesError::PageRangeOutOfBounds { end: range_end, len: page_count })
    } else {
        Ok(())
    }
}

/// Assemble the final document from completed pages: pages are put in
/// ascending id order (stable), their elements concatenated in that order
/// and merged into blocks with the given title levels. Both the page list
/// and the block list come out in non-decreasing page order, each block
/// carrying exactly one page id.
pub fn assemble_document(
    doc_name: String,
    pages: Vec<StructuredPage>,
    title_levels: &Vec<TitleLevelEntry>,
    parsing_duration_ms: u64,
    debug_path: Option<String>,
) -> (r: ParsedDocument)
    requires
        forall|i: int| 0 <= i < pages@.len() ==> spec_spage_wf((#[trigger] pages@[i])@),
    ensures
        r.doc_name == doc_name,
        r.debug_path == debug_path,
        r.metadata.parsing_duration_ms == parsing_duration_ms,
        r.metadata.ferrules_version@ == crate::entities::FERRULES_VERSION@,
        ({
            let sorted = spec_sort_pages(pages@.map_values(|p: StructuredPage| p@));
            &&& r.pages@.len() == pages@.len()
            &&& (forall|i: int|
                0 <= i < r.pages@.len() ==> (#[trigger] r.pages@[i]) == (Page {
                    id: sorted[i].id,
                    width: sorted[i].width,
                    height: sorted[i].height,
                    need_ocr: sorted[i].need_ocr,
                }))
            &&& r.blocks@.map_values(|b: Block| b@) == spec_merge_blocks(
                spec_concat_elements(sorted),
                title_levels@,
                0,
            )
        }),
        forall|i: int, j: int|
            0 <= i < j < r.pages@.len() ==> (#[trigger] r.pages@[i]).id <= (
            #[trigger] r.pages@[j]).id,
        forall|k: int| 0 <= k < r.blocks@.len() ==> (#[trigger] r.blocks@[k]).pages_id@.len() == 1,
        forall|k1: int, k2: int|
            0 <= k1 < k2 < r.blocks@.len() ==> (#[trigger] r.blocks@[k1]).pages_id@[0] <= (
            #[trigger] r.blocks@[k2]).pages_id@[0],
{
    let ghost pv = pages@.map_values(|p: StructuredPage| p@);
    let sorted = sort_pages(pages);
    let ghost sv = spec_sort_pages(pv);
    proof {
        lemma_sort_pages_sorted(pv);
        lemma_sort_pages_provenance(pv);
        assert forall|i: int| 0 <= i < sorted@.len() implies spec_spage_wf(
            (#[trigger] sorted@[i])@,
        ) by {
            assert(sorted@[i]@ == sv[i]);
            assert(pv.contains(sv[i]));
            let k = choose|k: int| 0 <= k < pv.len() && pv[k] == sv[i];
            assert(pages@[k]@ == pv[k]);
        }
        assert forall|i: int, j: int| 0 <= i < j < sv.len() implies (#[trigger] sv[i]).id <= (
        #[trigger] sv[j]).id by {}
    }
    let all_elements = collect_elements(&sorted);
    proof {
        assert forall|i: int| 0 <= i < sv.len() implies spec_spage_wf(#[trigger] sv[i]) by {
            assert(sorted@[i]@ == sv[i]);
        }
        lemma_concat_sorted(sv);
        crate::merge::lemma_merge_page_order(
            all_elements@.map_values(|e: Element| e@),
            title_levels@,
            0,
        );
    }
    let blocks = merge_elements_into_blocks(all_elements, title_levels);
    let mut doc_pages: Vec<Page> = Vec::new();
    let mut i: usize = 0;
    while i < sorted.len()
        invariant
            0 <= i <= sorted@.len(),
            sv == spec_sort_pages(pv),
            sorted@.map_values(|p: StructuredPage| p@) == sv,
            doc_pages@.len() == i,
            forall|k: int|
                0 <= k < i ==> (#[trigger] doc_pages@[k]) == (Page {
                    id: sv[k].id,
                    width: sv[k].width,
                    height: sv[k].height,
                    need_ocr: sv[k].need_ocr,
                }),
        decreases sorted@.len() - i,
    {
        proof {
            assert(sorted@[i as int]@ == sv[i as int]);
        }
        let p = &sorted[i];
        doc_pages.push(Page { id: p.id, width: p.width, height: p.height, need_ocr: p.need_ocr });
        i += 1;
    }
    proof {
        lemma_sort_pages_multiset(pv);
        assert(all_elements@.map_values(|e: Element| e@) == spec_concat_elements(sv));
        let bm = blocks@.map_values(|b: Block| b@);
        assert(bm == spec_merge_blocks(spec_concat_elements(sv), title_levels@, 0));
        assert forall|k: int|
            0 <= k < blocks@.len() implies (#[trigger] blocks@[k]).pages_id@.len() == 1 by {
            assert(bm[k] == blocks@[k]@);
        }
        assert forall|k1: int, k2: int|
            0 <= k1 < k2 < blocks@.len() implies (#[trigger] blocks@[k1]).pages_id@[0] <= (
        #[trigger] blocks@[k2]).pages_id@[0] by {
            assert(bm[k1] == blocks@[k1]@);
            assert(bm[k2] == blocks@[k2]@);
        }
        assert forall|i1: int, j1: int|
            0 <= i1 < j1 < doc_pages@.len() implies (#[trigger] doc_pages@[i1]).id <= (
        #[trigger] doc_pages@[j1]).id by {
            lemma_sort_pages_sorted(pv);
        }
    }
    ParsedDocument {
        doc_name,
        pages: doc_pages,
        blocks,
        debug_path,
        metadata: DocumentMetadata::new(parsing_duration_ms),
    }
}


/// An ASCII whitespace character, as trimmed around page range numbers.
pub open spec fn spec_is_space(c: char) -> bool {
    c == ' ' || c == '\t' || c == '\n' || c == '\r'
}

pub open spec fn spec_trim_front(s: Seq<char>) -> Seq<char>
    decreases s.len(),
{
    if s.len() > 0 && spec_is_space(s[0]) {
        spec_trim_front(s.drop_first())
    } else {
        s
    }
}

pub open spec fn spec_trim_back(s: Seq<char>) -> Seq<char>
    decreases s.len(),
{
    if s.len() > 0 && spec_is_space(s.last()) {
        spec_trim_back(s.drop_last())
    } else {
        s
    }
}

/// The sequence with ASCII whitespace removed from both ends.
pub open spec fn spec_trim(s: Seq<char>) -> Seq<char> {
    spec_trim_back(spec_trim_front(s))
}

pub open spec fn spec_is_digit(c: char) -> bool {
    '0' <= c <= '9'
}

/// The numeric value of a digit string, most significant digit first.
pub open spec fn spec_digits_value(s: Seq<char>) -> int
    decreases s.len(),
{
    if s.len() == 0 {
        0
    } else {
        spec_digits_value(s.drop_last()) * 10 + (s.last() as u32 - 0x30)
    }
}

pub open spec fn spec_is_number(s: Seq<char>) -> bool {
    s.len() > 0 && forall|i: int| 0 <= i < s.len() ==> spec_is_digit(#[trigger] s[i])
}

/// What parsing a trimmed decimal number yields: its value when the
/// string is all digits and the value fits the machine, nothing
/// otherwise.
pub open spec fn spec_parse_usize(s: Seq<char>) -> Option<usize> {
    let t = spec_trim(s);
    if spec_is_number(t) && spec_digits_value(t) <= usize::MAX {
        Some(spec_digits_value(t) as usize)
    } else {
        None
    }
}

fn trim_chars(s: &Vec<char>) -> (r: Vec<char>)
    ensures
        r@ == spec_trim(s@),
{
    let mut lo: usize = 0;
    let n = s.len();
    proof {
        assert(s@.skip(0) =~= s@);
    }
    while lo < n && (s[lo] == ' ' || s[lo] == '\t' || s[lo] == '\n' || s[lo] == '\r')
        invariant
            0 <= lo <= n,
            n == s@.len(),
            spec_trim_front(s@) == spec_trim_front(s@.skip(lo as int)),
            forall|k: int| 0 <= k < lo ==> spec_is_space(#[trigger] s@[k]),
        decreases n - lo,
    {
        proof {
            assert(s@.skip(lo as int)[0] == s@[lo as int]);
            assert(s@.skip(lo as int).drop_first() =~= s@.skip(lo + 1));
        }
        lo += 1;
    }
    proof {
        if lo < n {
            assert(!spec_is_space(s@.skip(lo as int)[0]));
        } else {
            assert(s@.skip(lo as int) =~= Seq::<char>::empty());
        }
        assert(spec_trim_front(s@) == s@.skip(lo as int));
        assert(s@.skip(lo as int).take(n - lo as int) =~= s@.skip(lo as int));
    }
    let mut hi: usize = n;
    while hi > lo && (s[hi - 1] == ' ' || s[hi - 1] == '\t' || s[hi - 1] == '\n' || s[hi - 1]
        == '\r')
        invariant
            lo <= hi <= n,
            n == s@.len(),
            spec_trim_front(s@) == s@.skip(lo as int),
            spec_trim_back(s@.skip(lo as int)) == spec_trim_back(
                s@.skip(lo as int).take(hi - lo as int),
            ),
        decreases hi,
    {
        proof {
            let cur = s@.skip(lo as int).take(hi - lo as int);
            assert(cur.last() == s@[hi - 1]);
            assert(cur.drop_last() =~= s@.skip(lo as int).take(hi - 1 - lo as int));
        }
        hi -= 1;
    }
    proof {
        let cur = s@.skip(lo as int).take(hi - lo as int);
        if hi > lo {
            assert(cur.last() == s@[hi - 1]);
            assert(!spec_is_space(cur.last()));
        } else {
            assert(cur =~= Seq::<char>::empty());
        }
        assert(spec_trim_back(s@.skip(lo as int)) == cur);
        assert(s@.skip(lo as int).take(s@.skip(lo as int).len() as int) =~= s@.skip(lo as int));
    }
    let mut out: Vec<char> = Vec::new();
    let mut i: usize = lo;
    while i < hi
        invariant
            lo <= i <= hi <= n,
            n == s@.len(),
            out@ =~= s@.subrange(lo as int, i as int),
        decreases hi - i,
    {
        out.push(s[i]);
        i += 1;
    }
    proof {
        assert(out@ =~= s@.skip(lo as int).take(hi - lo as int));
    }
    out
}

fn parse_usize_chars(t: &Vec<char>) -> (r: Option<usize>)
    ensures
        ({
            let tv = t@;
            &&& (spec_is_number(tv) && spec_digits_value(tv) <= usize::MAX) <==> (r is Some)
            &&& r is Some ==> r.unwrap() as int == spec_digits_value(tv)
        }),
{
    let n = t.len();
    if n == 0 {
        return None;
    }
    let mut val: u128 = 0;
    let ghost limit = usize::MAX as int;
    let mut i: usize = 0;
    while i < n
        invariant
            0 <= i <= n,
            n == t@.len(),
            limit == usize::MAX as int,
            forall|k: int| 0 <= k < i ==> spec_is_digit(#[trigger] t@[k]),
            val as int == if spec_digits_value(t@.take(i as int)) <= limit {
                spec_digits_value(t@.take(i as int))
            } else {
                limit + 1
            },
            val <= usize::MAX as u128 + 1,
        decreases n - i,
    {
        let c = t[i];
        if !('0' <= c && c <= '9') {
            proof {
                assert(!spec_is_digit(t@[i as int]));
            }
            return None;
        }
        let d = (c as u32 - 0x30) as u128;
        let ghost prev = spec_digits_value(t@.take(i as int));
        let ghost cur = spec_digits_value(t@.take(i + 1));
        proof {
            assert(t@.take(i + 1).drop_last() =~= t@.take(i as int));
            assert(t@.take(i + 1).last() == t@[i as int]);
            assert(cur == prev * 10 + (t@[i as int] as u32 - 0x30));
            lemma_digits_value_nonneg(t@.take(i as int));
            if prev > limit {
                assert(prev * 10 >= prev) by (nonlinear_arith)
                    requires
                        prev >= 1,
                ;
                assert(cur > limit);
            }
        }
        let next = val * 10 + d;
        if next > (usize::MAX as u128) {
            proof {
                if prev <= limit {
                    assert(val as int == prev);
                    assert(next as int == prev * 10 + (t@[i as int] as u32 - 0x30));
                    assert(cur > limit);
                }
            }
            val = (usize::MAX as u128) + 1;
        } else {
            proof {
                if prev > limit {
                    assert(val as int == limit + 1);
                    assert(next as int == (limit + 1) * 10 + (t@[i as int] as u32 - 0x30));
                    assert(false);
                }
                assert(cur == next as int);
            }
            val = next;
        }
        i += 1;
    }
    proof {
        assert(t@.take(n as int) =~= t@);
    }
    if val <= usize::MAX as u128 {
        Some(val as usize)
    } else {
        None
    }
}

proof fn lemma_digits_value_nonneg(s: Seq<char>)
    requires
        forall|i: int| 0 <= i < s.len() ==> spec_is_digit(#[trigger] s[i]),
    ensures
        spec_digits_value(s) >= 0,
        s.len() > 0 ==> spec_digits_value(s) >= 0,
    decreases s.len(),
{
    if s.len() > 0 {
        lemma_digits_value_nonneg(s.drop_last());
    }
}

/// Index of the first dash, or the length when there is none.
pub open spec fn spec_first_dash(s: Seq<char>) -> int
    decreases s.len(),
{
    if s.len() == 0 {
        0
    } else if s[0] == '-' {
        0
    } else {
        1 + spec_first_dash(s.drop_first())
    }
}

/// What a page range string means: `"a-b"` (1-based, inclusive) turns
/// into the 0-based half-open pair `(a-1, b)` when both numbers parse,
/// `a` is positive and `b` is at least `a`; a single page `"p"` turns
/// into `(p-1, p)`; anything else is invalid.
pub open spec fn spec_parse_page_range(s: Seq<char>) -> Option<(usize, usize)> {
    let d = spec_first_dash(s);
    if d < s.len() {
        let a = spec_parse_usize(s.take(d));
        let b = spec_parse_usize(s.skip(d + 1));
        if a is Some && b is Some && a.unwrap() > 0 && b.unwrap() >= a.unwrap() {
            Some(((a.unwrap() - 1) as usize, b.unwrap()))
        } else {
            None
        }
    } else {
        let p = spec_parse_usize(s);
        if p is Some && p.unwrap() > 0 {
            Some(((p.unwrap() - 1) as usize, p.unwrap()))
        } else {
            None
        }
    }
}

/// Read a 1-based page range: `"3-5"` means pages 3 to 5 inclusive,
/// `"7"` means page 7 alone; the result is 0-based and half-open. The
/// start must be positive and the end no smaller than the start.
pub fn parse_page_range(range_str: &str) -> (r: Result<(usize, usize), FerrulesError>)
    ensures
        r matches Ok(v) ==> spec_parse_page_range(range_str@) == Some(v),
        r is Err ==> (spec_parse_page_range(range_str@) is None && r == Err::<
            (usize, usize),
            FerrulesError,
        >(FerrulesError::PageRangeSyntax)),
{
    let chars = crate::text::str_to_chars(range_str);
    let n = chars.len();
    let mut d: usize = 0;
    proof {
        assert(chars@.skip(0) =~= chars@);
    }
    while d < n && chars[d] != '-'
        invariant
            0 <= d <= n,
            n == chars@.len(),
            spec_first_dash(chars@) == d + spec_first_dash(chars@.skip(d as int)),
            forall|k: int| 0 <= k < d ==> #[trigger] chars@[k] != '-',
        decreases n - d,
    {
        proof {
            assert(chars@.skip(d as int)[0] == chars@[d as int]);
            assert(chars@.skip(d as int).drop_first() =~= chars@.skip(d + 1));
        }
        d += 1;
    }
    proof {
        if d < n {
            assert(chars@.skip(d as int)[0] == chars@[d as int]);
        } else {
            assert(chars@.skip(d as int) =~= Seq::<char>::empty());
        }
        assert(spec_first_dash(chars@) == d as int);
    }
    if d < n {
        let mut left: Vec<char> = Vec::new();
        let mut i: usize = 0;
        while i < d
            invariant
                0 <= i <= d <= n,
                n == chars@.len(),
                left@ =~= chars@.take(d as int).take(i as int),
            decreases d - i,
        {
            left.push(chars[i]);
            i += 1;
        }
        let mut right: Vec<char> = Vec::new();
        let mut j: usize = d + 1;
        while j < n
            invariant
                d + 1 <= j <= n || (d + 1 > n && j == d + 1),
                n == chars@.len(),
                right@ =~= chars@.skip(d + 1).take(j - d - 1 as int),
            decreases n - j,
        {
            right.push(chars[j]);
            j += 1;
        }
        proof {
            assert(left@ =~= chars@.take(d as int));
            assert(right@ =~= chars@.skip(d + 1));
        }
        let lt = trim_chars(&left);
        let rt = trim_chars(&right);
        let a = parse_usize_chars(&lt);
        let b = parse_usize_chars(&rt);
        match (a, b) {
            (Some(start), Some(end)) => {
                if start > 0 && end >= start {
                    Ok((start - 1, end))
                } else {
                    Err(FerrulesError::PageRangeSyntax)
                }
            },
            _ => Err(FerrulesError::PageRangeSyntax),
        }
    } else {
        let t = trim_chars(&chars);
        match parse_usize_chars(&t) {
            Some(p) => {
                if p > 0 {
                    Ok((p - 1, p))
                } else {
                    Err(FerrulesError::PageRangeSyntax)
                }
            },
            None => Err(FerrulesError::PageRangeSyntax),
        }
    }
}

} // verus!
