//! The element-to-block state machine.
//!
//! The element stream (all pages, in page order) is consumed in disjoint
//! consecutive groups, with one token of lookahead; each group emits
//! exactly one block, except a table group, which emits none:
//!
//! - a text, title or subtitle element forms a group by itself;
//! - a run of list items forms one list;
//! - a run of headers (or footers) forms one header (footer) block, texts
//!   joined by line feeds;
//! - a run of captions or footnotes takes a directly following image into
//!   its group (one figure with the accumulated caption); without one it
//!   becomes a plain text block, leaving the next element alone;
//! - an image takes one directly following caption or footnote as its
//!   caption;
//! - a table element is consumed without emission (a deliberate
//!   limitation: tables are detected but not extracted).
//!
//! Block ids count up from 0 in emission order. Titles get their level
//! from the precomputed title-level map; unknown keys get 0.

use vstd::prelude::*;
use vstd::string::StringExecFns;

use crate::blocks::{Block, BlockKindV, BlockType, BlockV, ImageBlock, List, TextBlock, Title};
use crate::entities::{Element, ElementType, ElementV};
use crate::lines::spec_fold_bbox;
use crate::titles::{spec_title_level, title_level_of, TitleLevelEntry};

verus! {

/// Caption-like kinds: captions and footnotes behave alike in merging.
pub open spec fn spec_captionish(k: ElementType) -> bool {
    k == ElementType::Caption || k == ElementType::FootNote
}

/// Length of the leading run of elements of kind `k`.
pub open spec fn spec_run_len(els: Seq<ElementV>, k: ElementType) -> int
    decreases els.len(),
{
    if els.len() == 0 || els[0].kind != k {
        0
    } else {
        1 + spec_run_len(els.drop_first(), k)
    }
}

/// Length of the leading run of caption-like elements.
pub open spec fn spec_cap_run_len(els: Seq<ElementV>) -> int
    decreases els.len(),
{
    if els.len() == 0 || !spec_captionish(els[0].kind) {
        0
    } else {
        1 + spec_cap_run_len(els.drop_first())
    }
}

/// A leading run is exactly as long as its witness says: `m` elements of
/// kind `k` followed by the end or a different kind.
proof fn lemma_run_len_eq(els: Seq<ElementV>, k: ElementType, m: int)
    requires
        0 <= m <= els.len(),
        forall|j: int| 0 <= j < m ==> (#[trigger] els[j]).kind == k,
        m < els.len() ==> els[m].kind != k,
    ensures
        spec_run_len(els, k) == m,
    decreases m,
{
    if m == 0 {
    } else {
        assert(els[0].kind == k);
        lemma_run_len_eq(els.drop_first(), k, m - 1);
    }
}

proof fn lemma_cap_run_len_eq(els: Seq<ElementV>, m: int)
    requires
        0 <= m <= els.len(),
        forall|j: int| 0 <= j < m ==> spec_captionish((#[trigger] els[j]).kind),
        m < els.len() ==> !spec_captionish(els[m].kind),
    ensures
        spec_cap_run_len(els) == m,
    decreases m,
{
    if m == 0 {
    } else {
        lemma_cap_run_len_eq(els.drop_first(), m - 1);
    }
}

/// The concatenation of `texts` with `sep` between neighbours.
pub open spec fn spec_join(texts: Seq<Seq<char>>, sep: Seq<char>) -> Seq<char>
    recommends
        texts.len() > 0,
    decreases texts.len(),
{
    if texts.len() <= 1 {
        texts[0]
    } else {
        spec_join(texts.drop_last(), sep) + sep + texts.last()
    }
}

/// How many elements the group at the front of `els` consumes.
pub open spec fn spec_group_len(els: Seq<ElementV>) -> int
    recommends
        els.len() > 0,
{
    match els[0].kind {
        ElementType::ListItem => spec_run_len(els, ElementType::ListItem),
        ElementType::Header => spec_run_len(els, ElementType::Header),
        ElementType::Footer => spec_run_len(els, ElementType::Footer),
        ElementType::Image => if els.len() >= 2 && spec_captionish(els[1].kind) {
            2
        } else {
            1
        },
        ElementType::Caption => spec_caption_group_len(els),
        ElementType::FootNote => spec_caption_group_len(els),
        _ => 1,
    }
}

pub open spec fn spec_caption_group_len(els: Seq<ElementV>) -> int {
    let c = spec_cap_run_len(els);
    if c < els.len() && els[c].kind == ElementType::Image {
        c + 1
    } else {
        c
    }
}

/// The block the group at the front of `els` emits (none for a table),
/// with id `id`.
pub open spec fn spec_group_block(
    els: Seq<ElementV>,
    titles: Seq<TitleLevelEntry>,
    id: usize,
) -> Option<BlockV>
    recommends
        els.len() > 0,
{
    let e0 = els[0];
    match e0.kind {
        ElementType::Text => Some(
            BlockV {
                id,
                kind: BlockKindV::Text { text: e0.text },
                pages_id: seq![e0.page_id],
                bbox: e0.bbox,
            },
        ),
        ElementType::Title => Some(spec_title_block(e0, titles, id)),
        ElementType::Subtitle => Some(spec_title_block(e0, titles, id)),
        ElementType::ListItem => {
            let run = els.take(spec_run_len(els, ElementType::ListItem));
            Some(
                BlockV {
                    id,
                    kind: BlockKindV::List { items: run.map_values(|e: ElementV| e.text) },
                    pages_id: seq![e0.page_id],
                    bbox: spec_fold_bbox(run.map_values(|e: ElementV| e.bbox)),
                },
            )
        },
        ElementType::Header => {
            let run = els.take(spec_run_len(els, ElementType::Header));
            Some(
                BlockV {
                    id,
                    kind: BlockKindV::Header {
                        text: spec_join(run.map_values(|e: ElementV| e.text), seq!['\n']),
                    },
                    pages_id: seq![e0.page_id],
                    bbox: spec_fold_bbox(run.map_values(|e: ElementV| e.bbox)),
                },
            )
        },
        ElementType::Footer => {
            let run = els.take(spec_run_len(els, ElementType::Footer));
            Some(
                BlockV {
                    id,
                    kind: BlockKindV::Footer {
                        text: spec_join(run.map_values(|e: ElementV| e.text), seq!['\n']),
                    },
                    pages_id: seq![e0.page_id],
                    bbox: spec_fold_bbox(run.map_values(|e: ElementV| e.bbox)),
                },
            )
        },
        ElementType::Image => if els.len() >= 2 && spec_captionish(els[1].kind) {
            Some(
                BlockV {
                    id,
                    kind: BlockKindV::Image { caption: Some(els[1].text) },
                    pages_id: seq![e0.page_id],
                    bbox: e0.bbox.spec_merge(els[1].bbox),
                },
            )
        } else {
            Some(
                BlockV {
                    id,
                    kind: BlockKindV::Image { caption: None },
                    pages_id: seq![e0.page_id],
                    bbox: e0.bbox,
                },
            )
        },
        ElementType::Caption => Some(spec_caption_block(els, id)),
        ElementType::FootNote => Some(spec_caption_block(els, id)),
        ElementType::Table => None,
    }
}

pub open spec fn spec_title_block(e0: ElementV, titles: Seq<TitleLevelEntry>, id: usize) -> BlockV {
    BlockV {
        id,
        kind: BlockKindV::Title {
            level: spec_title_level(titles, e0.page_id, e0.id),
            text: e0.text,
        },
        pages_id: seq![e0.page_id],
        bbox: e0.bbox,
    }
}

/// A caption run's block: fused with a directly following image into a
/// figure, or a plain text block of the accumulated caption text. The box
/// is the first caption's, merged with the image's when one follows.
pub open spec fn spec_caption_block(els: Seq<ElementV>, id: usize) -> BlockV {
    let c = spec_cap_run_len(els);
    let acc = spec_join(els.take(c).map_values(|e: ElementV| e.text), seq![' ']);
    if c < els.len() && els[c].kind == ElementType::Image {
        BlockV {
            id,
            kind: BlockKindV::Image { caption: Some(acc) },
            pages_id: seq![els[c].page_id],
            bbox: els[0].bbox.spec_merge(els[c].bbox),
        }
    } else {
        BlockV {
            id,
            kind: BlockKindV::Text { text: acc },
            pages_id: seq![els[0].page_id],
            bbox: els[0].bbox,
        }
    }
}

/// The blocks an element stream merges into, ids counting up from
/// `next_id`: one group after another, each contributing its block.
pub open spec fn spec_merge_blocks(
    els: Seq<ElementV>,
    titles: Seq<TitleLevelEntry>,
    next_id: usize,
) -> Seq<BlockV>
    decreases els.len(),
{
    if els.len() == 0 {
        Seq::empty()
    } else {
        let g = spec_group_len(els);
        let n = if g < 1 {
            1
        } else if g > els.len() {
            els.len() as int
        } else {
            g
        };
        match spec_group_block(els, titles, next_id) {
            Some(b) => seq![b] + spec_merge_blocks(els.skip(n), titles, (next_id + 1) as usize),
            None => spec_merge_blocks(els.skip(n), titles, next_id),
        }
    }
}

/// End of the run of kind `k` starting at `start`.
fn run_end(elements: &Vec<Element>, start: usize, k: ElementType) -> (j: usize)
    requires
        start < elements@.len(),
        elements@[start as int].kind == k,
    ensures
        start < j <= elements@.len(),
        forall|m: int| start <= m < j ==> (#[trigger] elements@[m]).kind == k,
        j < elements@.len() ==> elements@[j as int].kind != k,
{
    let len = elements.len();
    let mut j = start + 1;
    while j < len && elements[j].kind == k
        invariant
            len == elements@.len(),
            start < j <= elements@.len(),
            forall|m: int| start <= m < j ==> (#[trigger] elements@[m]).kind == k,
        decreases len - j,
    {
        j += 1;
    }
    j
}

fn is_captionish(k: ElementType) -> (r: bool)
    ensures
        r == spec_captionish(k),
{
    match k {
        ElementType::Caption => true,
        ElementType::FootNote => true,
        _ => false,
    }
}

/// End of the run of caption-like elements starting at `start`.
fn cap_run_end(elements: &Vec<Element>, start: usize) -> (j: usize)
    requires
        start < elements@.len(),
        spec_captionish(elements@[start as int].kind),
    ensures
        start < j <= elements@.len(),
        forall|m: int| start <= m < j ==> spec_captionish((#[trigger] elements@[m]).kind),
        j < elements@.len() ==> !spec_captionish(elements@[j as int].kind),
{
    let len = elements.len();
    let mut j = start + 1;
    while j < len && is_captionish(elements[j].kind)
        invariant
            len == elements@.len(),
            start < j <= elements@.len(),
            forall|m: int| start <= m < j ==> spec_captionish((#[trigger] elements@[m]).kind),
        decreases len - j,
    {
        j += 1;
    }
    j
}


/// The group starting at `i` (whose kind is `elements[i].kind`), emitted
/// as a block with id `bid`, together with the index just past the group.
#[verifier::rlimit(100)]
fn group_at(
    elements: &Vec<Element>,
    i: usize,
    bid: usize,
    title_levels: &Vec<TitleLevelEntry>,
) -> (r: (Option<Block>, usize))
    requires
        i < elements@.len(),
    ensures
        ({
            let ev = elements@.map_values(|e: Element| e@);
            let rem = ev.skip(i as int);
            &&& i < r.1 <= ev.len()
            &&& spec_group_len(rem) == r.1 - i
            &&& (match r.0 {
                Some(b) => spec_group_block(rem, title_levels@, bid) == Some(b@),
                None => spec_group_block(rem, title_levels@, bid) is None,
            })
        }),
{
    let ghost ev = elements@.map_values(|e: Element| e@);
    let ghost rem = ev.skip(i as int);
    let ghost tl = title_levels@;
    proof {
        assert forall|q: int| 0 <= q < rem.len() implies #[trigger] rem[q] == ev[i + q] by {}
        assert(rem[0] == elements@[i as int]@);
    }
    let n = elements.len();
    let kind = elements[i].kind;
    match kind {
        ElementType::Text => {
            let b = Block {
                id: bid,
                kind: BlockType::TextBlock(TextBlock { text: elements[i].text_block.text.clone() }),
                pages_id: vec![elements[i].page_id],
                bbox: elements[i].bbox,
            };
            proof {
                assert(b.pages_id@ =~= seq![rem[0].page_id]);
                assert(spec_group_block(rem, tl, bid) == Some(b@));
            }
            (Some(b), i + 1)
        },
        ElementType::Title | ElementType::Subtitle => {
            let level = title_level_of(title_levels, elements[i].page_id, elements[i].id);
            let b = Block {
                id: bid,
                kind: BlockType::Title(Title { level, text: elements[i].text_block.text.clone() }),
                pages_id: vec![elements[i].page_id],
                bbox: elements[i].bbox,
            };
            proof {
                assert(b.pages_id@ =~= seq![rem[0].page_id]);
                assert(spec_group_block(rem, tl, bid) == Some(b@));
            }
            (Some(b), i + 1)
        },
        ElementType::Table => {
            proof {
                assert(spec_group_block(rem, tl, bid) is None);
            }
            (None, i + 1)
        },
        ElementType::ListItem => {
            let j = run_end(elements, i, ElementType::ListItem);
            let mut items: Vec<String> = Vec::new();
            items.push(elements[i].text_block.text.clone());
            let mut bbox = elements[i].bbox;
            let first_page = elements[i].page_id;
            let mut m = i + 1;
            proof {
                assert(items@.map_values(|s: String| s@) =~= ev.subrange(i as int, i + 1).map_values(
                    |e: ElementV| e.text,
                ));
                assert(ev.subrange(i as int, i + 1).map_values(|e: ElementV| e.bbox)
                    =~= seq![rem[0].bbox]);
            }
            while m < j
                invariant
                    i < m <= j <= n,
                    n == elements@.len(),
                    ev == elements@.map_values(|e: Element| e@),
                    items@.map_values(|s: String| s@) == ev.subrange(i as int, m as int).map_values(
                        |e: ElementV| e.text,
                    ),
                    bbox == spec_fold_bbox(
                        ev.subrange(i as int, m as int).map_values(|e: ElementV| e.bbox),
                    ),
                decreases j - m,
            {
                items.push(elements[m].text_block.text.clone());
                bbox.merge(&elements[m].bbox);
                proof {
                    lemma_subrange_extend_maps(ev, i as int, m as int);
                }
                m += 1;
            }
            let b = Block {
                id: bid,
                kind: BlockType::ListBlock(List { items }),
                pages_id: vec![first_page],
                bbox,
            };
            proof {
                lemma_run_len_eq(rem, ElementType::ListItem, j - i);
                assert(rem.take(j - i) =~= ev.subrange(i as int, j as int));
                assert(b.pages_id@ =~= seq![rem[0].page_id]);
                assert(spec_group_block(rem, tl, bid) == Some(b@));
            }
            (Some(b), j)
        },
        ElementType::Header | ElementType::Footer => {
            let j = run_end(elements, i, kind);
            let mut text = elements[i].text_block.text.clone();
            let mut bbox = elements[i].bbox;
            let first_page = elements[i].page_id;
            let mut m = i + 1;
            proof {
                assert(ev.subrange(i as int, i + 1).map_values(|e: ElementV| e.text)
                    =~= seq![rem[0].text]);
                assert(ev.subrange(i as int, i + 1).map_values(|e: ElementV| e.bbox)
                    =~= seq![rem[0].bbox]);
            }
            while m < j
                invariant
                    i < m <= j <= n,
                    n == elements@.len(),
                    ev == elements@.map_values(|e: Element| e@),
                    text@ == spec_join(
                        ev.subrange(i as int, m as int).map_values(|e: ElementV| e.text),
                        seq!['\n'],
                    ),
                    bbox == spec_fold_bbox(
                        ev.subrange(i as int, m as int).map_values(|e: ElementV| e.bbox),
                    ),
                decreases j - m,
            {
                proof {
                    reveal_strlit("\n");
                }
                let ghost oldtext = text@;
                text.append("\n");
                text.append(elements[m].text_block.text.as_str());
                bbox.merge(&elements[m].bbox);
                proof {
                    lemma_subrange_extend_maps(ev, i as int, m as int);
                    assert(text@ =~= oldtext + seq!['\n'] + ev[m as int].text);
                }
                m += 1;
            }
            let b = Block {
                id: bid,
                kind: if matches!(kind, ElementType::Header) {
                    BlockType::Header(TextBlock { text })
                } else {
                    BlockType::Footer(TextBlock { text })
                },
                pages_id: vec![first_page],
                bbox,
            };
            proof {
                lemma_run_len_eq(rem, kind, j - i);
                assert(rem.take(j - i) =~= ev.subrange(i as int, j as int));
                assert(b.pages_id@ =~= seq![rem[0].page_id]);
                assert(spec_group_block(rem, tl, bid) == Some(b@));
            }
            (Some(b), j)
        },
        ElementType::Caption | ElementType::FootNote => {
            let j = cap_run_end(elements, i);
            let mut text = elements[i].text_block.text.clone();
            let first_bbox = elements[i].bbox;
            let first_page = elements[i].page_id;
            let mut m = i + 1;
            proof {
                assert(ev.subrange(i as int, i + 1).map_values(|e: ElementV| e.text)
                    =~= seq![rem[0].text]);
            }
            while m < j
                invariant
                    i < m <= j <= n,
                    n == elements@.len(),
                    ev == elements@.map_values(|e: Element| e@),
                    text@ == spec_join(
                        ev.subrange(i as int, m as int).map_values(|e: ElementV| e.text),
                        seq![' '],
                    ),
                decreases j - m,
            {
                proof {
                    reveal_strlit(" ");
                }
                let ghost oldtext = text@;
                text.append(" ");
                text.append(elements[m].text_block.text.as_str());
                proof {
                    lemma_subrange_extend_maps(ev, i as int, m as int);
                    assert(text@ =~= oldtext + seq![' '] + ev[m as int].text);
                }
                m += 1;
            }
            proof {
                lemma_cap_run_len_eq(rem, j - i);
                assert(rem.take(j - i) =~= ev.subrange(i as int, j as int));
            }
            let has_image = j < n && matches!(elements[j].kind, ElementType::Image);
            if has_image {
                let mut bbox = first_bbox;
                bbox.merge(&elements[j].bbox);
                let b = Block {
                    id: bid,
                    kind: BlockType::Image(ImageBlock { caption: Some(text) }),
                    pages_id: vec![elements[j].page_id],
                    bbox,
                };
                proof {
                    assert(b.pages_id@ =~= seq![rem[j - i].page_id]);
                    assert(spec_group_block(rem, tl, bid) == Some(b@));
                }
                (Some(b), j + 1)
            } else {
                let b = Block {
                    id: bid,
                    kind: BlockType::TextBlock(TextBlock { text }),
                    pages_id: vec![first_page],
                    bbox: first_bbox,
                };
                proof {
                    assert(b.pages_id@ =~= seq![rem[0].page_id]);
                    assert(spec_group_block(rem, tl, bid) == Some(b@));
                }
                (Some(b), j)
            }
        },
        ElementType::Image => {
            let has_caption = i + 1 < n && is_captionish(elements[i + 1].kind);
            if has_caption {
                let mut bbox = elements[i].bbox;
                bbox.merge(&elements[i + 1].bbox);
                let b = Block {
                    id: bid,
                    kind: BlockType::Image(
                        ImageBlock { caption: Some(elements[i + 1].text_block.text.clone()) },
                    ),
                    pages_id: vec![elements[i].page_id],
                    bbox,
                };
                proof {
                    assert(b.pages_id@ =~= seq![rem[0].page_id]);
                    assert(spec_group_block(rem, tl, bid) == Some(b@));
                }
                (Some(b), i + 2)
            } else {
                let b = Block {
                    id: bid,
                    kind: BlockType::Image(ImageBlock { caption: None }),
                    pages_id: vec![elements[i].page_id],
                    bbox: elements[i].bbox,
                };
                proof {
                    assert(b.pages_id@ =~= seq![rem[0].page_id]);
                    assert(spec_group_block(rem, tl, bid) == Some(b@));
                }
                (Some(b), i + 1)
            }
        },
    }
}

/// Merge the element stream into blocks, one group at a time (see the
/// module description). Every element belongs to exactly one group, every
/// group but a table's emits exactly one block, and block ids equal their
/// positions.
pub fn merge_elements_into_blocks(elements: Vec<Element>, title_levels: &Vec<TitleLevelEntry>) -> (r:
    Vec<Block>)
    ensures
        r@.map_values(|b: Block| b@) == spec_merge_blocks(
            elements@.map_values(|e: Element| e@),
            title_levels@,
            0,
        ),
{
    let ghost ev = elements@.map_values(|e: Element| e@);
    let ghost tl = title_levels@;
    let n = elements.len();
    let mut blocks: Vec<Block> = Vec::new();
    let mut i: usize = 0;
    proof {
        assert(ev.skip(0) =~= ev);
    }
    while i < n
        invariant
            0 <= i <= n,
            n == elements@.len(),
            ev == elements@.map_values(|e: Element| e@),
            tl == title_levels@,
            blocks@.len() <= i,
            spec_merge_blocks(ev, tl, 0) == blocks@.map_values(|b: Block| b@)
                + spec_merge_blocks(ev.skip(i as int), tl, blocks@.len() as usize),
        decreases n - i,
    {
        let bid = blocks.len();
        let (emitted, ni) = group_at(&elements, i, bid, title_levels);
        match emitted {
            Some(b) => {
                proof {
                    lemma_step_emit(
                        ev,
                        tl,
                        blocks@.map_values(|bb: Block| bb@),
                        i as int,
                        ni - i,
                        b@,
                    );
                }
                blocks.push(b);
            },
            None => {
                proof {
                    assert(ev.skip(i as int).skip(ni - i) =~= ev.skip(ni as int));
                    assert(spec_merge_blocks(ev.skip(i as int), tl, blocks@.len() as usize)
                        == spec_merge_blocks(ev.skip(ni as int), tl, blocks@.len() as usize));
                }
            },
        }
        i = ni;
    }
    proof {
        assert(ev.skip(n as int) =~= Seq::<ElementV>::empty());
        assert(blocks@.map_values(|b: Block| b@) + Seq::<BlockV>::empty() =~= blocks@.map_values(
            |b: Block| b@,
        ));
    }
    blocks
}


proof fn lemma_run_len_bounds(els: Seq<ElementV>, k: ElementType)
    ensures
        0 <= spec_run_len(els, k) <= els.len(),
        els.len() > 0 && els[0].kind == k ==> spec_run_len(els, k) >= 1,
    decreases els.len(),
{
    if els.len() > 0 && els[0].kind == k {
        lemma_run_len_bounds(els.drop_first(), k);
    }
}

proof fn lemma_cap_run_len_bounds(els: Seq<ElementV>)
    ensures
        0 <= spec_cap_run_len(els) <= els.len(),
        els.len() > 0 && spec_captionish(els[0].kind) ==> spec_cap_run_len(els) >= 1,
    decreases els.len(),
{
    if els.len() > 0 && spec_captionish(els[0].kind) {
        lemma_cap_run_len_bounds(els.drop_first());
    }
}

/// Totality of the merge: a non-empty stream always has a first group, of
/// between one element and the whole stream; the group emits a block
/// exactly when it is not a table; and the merge is the group's block (if
/// any) followed by the merge of the remaining elements. So every element
/// belongs to exactly one group, and every element of a non-table kind
/// contributes to exactly one block — its group's.
pub proof fn lemma_merge_totality(els: Seq<ElementV>, tl: Seq<TitleLevelEntry>, id: usize)
    requires
        els.len() > 0,
    ensures
        1 <= spec_group_len(els) <= els.len(),
        (spec_group_block(els, tl, id) is Some) <==> els[0].kind != ElementType::Table,
        spec_group_block(els, tl, id) is Some ==> spec_merge_blocks(els, tl, id)
            == seq![spec_group_block(els, tl, id).unwrap()] + spec_merge_blocks(
            els.skip(spec_group_len(els)),
            tl,
            (id + 1) as usize,
        ),
        spec_group_block(els, tl, id) is None ==> spec_merge_blocks(els, tl, id)
            == spec_merge_blocks(els.skip(spec_group_len(els)), tl, id),
{
    lemma_run_len_bounds(els, ElementType::ListItem);
    lemma_run_len_bounds(els, ElementType::Header);
    lemma_run_len_bounds(els, ElementType::Footer);
    lemma_cap_run_len_bounds(els);
}

/// The single page id a group's block carries is one of its own
/// elements' page ids.
proof fn lemma_group_block_page(els: Seq<ElementV>, tl: Seq<TitleLevelEntry>, id: usize)
    requires
        els.len() > 0,
    ensures
        spec_group_block(els, tl, id) matches Some(b) ==> b.pages_id.len() == 1 && (exists|x: int|
            0 <= x < spec_group_len(els) && b.pages_id[0] == (#[trigger] els[x]).page_id),
{
    lemma_merge_totality(els, tl, id);
    lemma_cap_run_len_bounds(els);
    match spec_group_block(els, tl, id) {
        Some(b) => {
            if spec_captionish(els[0].kind) {
                let c = spec_cap_run_len(els);
                if c < els.len() && els[c].kind == ElementType::Image {
                    assert(b.pages_id[0] == els[c].page_id);
                    assert(0 <= c < spec_group_len(els));
                } else {
                    assert(b.pages_id[0] == els[0].page_id);
                    assert(0 <= 0 < spec_group_len(els));
                }
            } else {
                assert(b.pages_id[0] == els[0].page_id);
                assert(0 <= 0 < spec_group_len(els));
            }
        },
        None => {},
    }
}

/// Page order: merging a stream whose page ids never decrease yields
/// blocks that each carry exactly one page id, in non-decreasing order,
/// never before the stream's first page.
pub proof fn lemma_merge_page_order(els: Seq<ElementV>, tl: Seq<TitleLevelEntry>, id: usize)
    requires
        forall|i: int, j: int|
            0 <= i < j < els.len() ==> (#[trigger] els[i]).page_id <= (#[trigger] els[j]).page_id,
    ensures
        forall|k: int|
            0 <= k < spec_merge_blocks(els, tl, id).len() ==> (#[trigger] spec_merge_blocks(
                els,
                tl,
                id,
            )[k]).pages_id.len() == 1,
        forall|k: int|
            0 <= k < spec_merge_blocks(els, tl, id).len() ==> els.len() > 0 && els[0].page_id <= (
            #[trigger] spec_merge_blocks(els, tl, id)[k]).pages_id[0],
        forall|k1: int, k2: int|
            0 <= k1 < k2 < spec_merge_blocks(els, tl, id).len() ==> (#[trigger] spec_merge_blocks(
                els,
                tl,
                id,
            )[k1]).pages_id[0] <= (#[trigger] spec_merge_blocks(els, tl, id)[k2]).pages_id[0],
    decreases els.len(),
{
    if els.len() == 0 {
    } else {
        lemma_merge_totality(els, tl, id);
        lemma_group_block_page(els, tl, id);
        let g = spec_group_len(els);
        let rest = els.skip(g);
        let r = spec_merge_blocks(els, tl, id);
        assert forall|i: int, j: int|
            0 <= i < j < rest.len() implies (#[trigger] rest[i]).page_id <= (
        #[trigger] rest[j]).page_id by {
            assert(rest[i] == els[g + i]);
            assert(rest[j] == els[g + j]);
        }
        match spec_group_block(els, tl, id) {
            Some(b) => {
                lemma_merge_page_order(rest, tl, (id + 1) as usize);
                let rec = spec_merge_blocks(rest, tl, (id + 1) as usize);
                let x = choose|x: int| 0 <= x < g && b.pages_id[0] == els[x].page_id;
                assert forall|k: int| 0 <= k < r.len() implies els[0].page_id <= (
                #[trigger] r[k]).pages_id[0] by {
                    if k == 0 {
                        assert(r[0] == b);
                        if x > 0 {
                            assert(els[0].page_id <= els[x].page_id);
                        }
                    } else {
                        assert(r[k] == rec[k - 1]);
                        assert(rest[0] == els[g]);
                        if g > 0 {
                        }
                    }
                }
                assert forall|k1: int, k2: int| 0 <= k1 < k2 < r.len() implies (
                #[trigger] r[k1]).pages_id[0] <= (#[trigger] r[k2]).pages_id[0] by {
                    if k1 == 0 {
                        assert(r[0] == b);
                        assert(r[k2] == rec[k2 - 1]);
                        assert(rest[0] == els[g]);
                        assert(els[x].page_id <= els[g].page_id);
                    } else {
                        assert(r[k1] == rec[k1 - 1]);
                        assert(r[k2] == rec[k2 - 1]);
                    }
                }
            },
            None => {
                lemma_merge_page_order(rest, tl, id);
                let rec = spec_merge_blocks(rest, tl, id);
                assert forall|k: int| 0 <= k < r.len() implies els[0].page_id <= (
                #[trigger] r[k]).pages_id[0] by {
                    assert(r[k] == rec[k]);
                    assert(rest[0] == els[g]);
                }
            },
        }
    }
}

/// One merge step: when the group at `i` has length `g` and emits `b`,
/// appending `b` keeps the running decomposition of the whole merge.
proof fn lemma_step_emit(
    ev: Seq<ElementV>,
    tl: Seq<TitleLevelEntry>,
    done: Seq<BlockV>,
    i: int,
    g: int,
    b: BlockV,
)
    requires
        0 <= i < ev.len(),
        1 <= g <= ev.len() - i,
        spec_merge_blocks(ev, tl, 0) == done + spec_merge_blocks(
            ev.skip(i),
            tl,
            done.len() as usize,
        ),
        spec_group_len(ev.skip(i)) == g,
        spec_group_block(ev.skip(i), tl, done.len() as usize) == Some(b),
        done.len() + 1 <= usize::MAX,
    ensures
        spec_merge_blocks(ev, tl, 0) == done.push(b) + spec_merge_blocks(
            ev.skip(i + g),
            tl,
            (done.len() + 1) as usize,
        ),
{
    let rem = ev.skip(i);
    assert(rem.len() == ev.len() - i);
    assert(spec_merge_blocks(rem, tl, done.len() as usize) == seq![b] + spec_merge_blocks(
        rem.skip(g),
        tl,
        (done.len() + 1) as usize,
    ));
    assert(rem.skip(g) =~= ev.skip(i + g));
    assert(done + (seq![b] + spec_merge_blocks(ev.skip(i + g), tl, (done.len() + 1) as usize))
        =~= done.push(b) + spec_merge_blocks(ev.skip(i + g), tl, (done.len() + 1) as usize));
}

/// Extending a subrange by one element extends its text and box images by
/// that element's text and box.
proof fn lemma_subrange_extend_maps(ev: Seq<ElementV>, i: int, m: int)
    requires
        0 <= i <= m < ev.len(),
    ensures
        ev.subrange(i, m + 1).map_values(|e: ElementV| e.text) == ev.subrange(i, m).map_values(
            |e: ElementV| e.text,
        ).push(ev[m].text),
        ev.subrange(i, m + 1).map_values(|e: ElementV| e.bbox) == ev.subrange(i, m).map_values(
            |e: ElementV| e.bbox,
        ).push(ev[m].bbox),
        ev.subrange(i, m + 1).map_values(|e: ElementV| e.text).drop_last() == ev.subrange(
            i,
            m,
        ).map_values(|e: ElementV| e.text),
        ev.subrange(i, m + 1).map_values(|e: ElementV| e.bbox).drop_last() == ev.subrange(
            i,
            m,
        ).map_values(|e: ElementV| e.bbox),
{
    assert(ev.subrange(i, m + 1).map_values(|e: ElementV| e.text) =~= ev.subrange(i, m).map_values(
        |e: ElementV| e.text,
    ).push(ev[m].text));
    assert(ev.subrange(i, m + 1).map_values(|e: ElementV| e.bbox) =~= ev.subrange(i, m).map_values(
        |e: ElementV| e.bbox,
    ).push(ev[m].bbox));
    assert(ev.subrange(i, m + 1).map_values(|e: ElementV| e.text).drop_last() =~= ev.subrange(
        i,
        m,
    ).map_values(|e: ElementV| e.text));
    assert(ev.subrange(i, m + 1).map_values(|e: ElementV| e.bbox).drop_last() =~= ev.subrange(
        i,
        m,
    ).map_values(|e: ElementV| e.bbox));
}

} // verus!
