// Cross-page assembly: page ordering, block ordering, error policy.

use ferrules::blocks::{Block, BlockType, TextBlock};
use ferrules::document::{assemble_document, cancel_checkpoint, check_page_range, parse_page_range, sort_pages};
use ferrules::entities::{Element, ElementText, ElementType, StructuredPage};
use ferrules::error::FerrulesError;
use ferrules::geom::BBox;

fn bb(x0: i64, y0: i64, x1: i64, y1: i64) -> BBox {
    BBox { x0, y0, x1, y1 }
}

fn element(id: usize, page_id: usize, kind: ElementType, text: &str) -> Element {
    Element {
        id,
        layout_block_id: 0,
        kind,
        text_block: ElementText { text: text.to_string() },
        page_id,
        bbox: bb(0, (10 * id) as i64, 100, (10 * id + 10) as i64),
    }
}

fn page(id: usize, elements: Vec<Element>) -> StructuredPage {
    StructuredPage { id, width: 6120, height: 7920, need_ocr: false, elements }
}

#[test]
fn pages_and_blocks_respect_page_order() {
    // Pages arrive out of order; the document puts them and their blocks
    // in ascending page order.
    let p2 = page(2, vec![element(0, 2, ElementType::Text, "late")]);
    let p0 = page(0, vec![element(0, 0, ElementType::Text, "early")]);
    let p1 = page(1, vec![element(0, 1, ElementType::ListItem, "middle")]);

    let doc = assemble_document("doc".to_string(), vec![p2, p0, p1], &vec![], 12, None);

    assert_eq!(doc.doc_name, "doc");
    assert_eq!(doc.metadata.parsing_duration_ms, 12);
    assert_eq!(doc.metadata.ferrules_version, "0.1.0");
    assert_eq!(doc.pages.len(), 3);
    for i in 0..doc.pages.len() {
        assert_eq!(doc.pages[i].id, i);
    }
    assert_eq!(doc.blocks.len(), 3);
    for w in doc.blocks.windows(2) {
        assert!(w[0].pages_id[0] <= w[1].pages_id[0]);
    }
    for b in &doc.blocks {
        assert_eq!(b.pages_id.len(), 1);
    }
    if let BlockType::TextBlock(t) = &doc.blocks[0].kind {
        assert_eq!(t.text, "early");
    } else {
        panic!("Expected TextBlock");
    }
}

#[test]
fn sort_pages_is_stable_ascending() {
    let pages = vec![page(5, vec![]), page(1, vec![]), page(3, vec![]), page(1, vec![])];
    let sorted = sort_pages(pages);
    let ids: Vec<usize> = sorted.iter().map(|p| p.id).collect();
    assert_eq!(ids, vec![1, 1, 3, 5]);
}

#[test]
fn page_range_check_fails_fast() {
    assert!(check_page_range(3, 3).is_ok());
    assert!(check_page_range(0, 0).is_ok());
    let err = check_page_range(5, 3).unwrap_err();
    assert_eq!(err, FerrulesError::PageRangeOutOfBounds { end: 5, len: 3 });
    assert!(err.is_fatal());
    assert!(!err.message().is_empty());
}

#[test]
fn cancellation_is_fatal_at_checkpoints() {
    assert!(cancel_checkpoint(false).is_ok());
    let err = cancel_checkpoint(true).unwrap_err();
    assert_eq!(err, FerrulesError::Cancelled);
    assert!(err.is_fatal());
}

#[test]
fn page_local_errors_are_not_fatal() {
    assert!(!FerrulesError::NativePage.is_fatal());
    assert!(!FerrulesError::LayoutInference.is_fatal());
    assert!(!FerrulesError::Ocr.is_fatal());
    assert!(FerrulesError::DocumentLoad.is_fatal());
    assert!(!FerrulesError::NativePage.message().is_empty());
    assert!(!FerrulesError::LayoutInference.message().is_empty());
    assert!(!FerrulesError::Ocr.message().is_empty());
    assert!(!FerrulesError::DocumentLoad.message().is_empty());
    assert!(!FerrulesError::PageRangeSyntax.message().is_empty());
}

#[test]
fn block_merge_rejects_wrong_kind() {
    let mut b = Block {
        id: 0,
        kind: BlockType::TextBlock(TextBlock { text: "a".to_string() }),
        pages_id: vec![0],
        bbox: bb(0, 0, 10, 10),
    };
    let list_el = element(1, 0, ElementType::ListItem, "item");
    assert_eq!(b.merge(&list_el).unwrap_err(), FerrulesError::BlockMerge);
    let text_el = element(2, 0, ElementType::Text, "b");
    assert!(b.merge(&text_el).is_ok());
    if let BlockType::TextBlock(t) = &b.kind {
        assert_eq!(t.text, "a\nb");
    } else {
        panic!("Expected TextBlock");
    }
}

#[test]
fn page_range_parsing() {
    assert_eq!(parse_page_range("3-5").unwrap(), (2, 5));
    assert_eq!(parse_page_range(" 1 - 4 ").unwrap(), (0, 4));
    assert_eq!(parse_page_range("7").unwrap(), (6, 7));
    assert_eq!(
        parse_page_range("0-3").unwrap_err(),
        FerrulesError::PageRangeSyntax
    );
    assert_eq!(
        parse_page_range("5-3").unwrap_err(),
        FerrulesError::PageRangeSyntax
    );
    assert_eq!(
        parse_page_range("abc").unwrap_err(),
        FerrulesError::PageRangeSyntax
    );
    assert_eq!(
        parse_page_range("").unwrap_err(),
        FerrulesError::PageRangeSyntax
    );
    assert_eq!(
        parse_page_range("99999999999999999999999999").unwrap_err(),
        FerrulesError::PageRangeSyntax
    );
}
