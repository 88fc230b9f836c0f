// The element-to-block state machine, second copy of the shared cases.

use ferrules::blocks::BlockType;
use ferrules::entities::{Element, ElementText, ElementType};
use ferrules::geom::BBox;
use ferrules::merge::merge_elements_into_blocks;

fn bb(x0: i64, y0: i64, x1: i64, y1: i64) -> BBox {
    BBox { x0, y0, x1, y1 }
}

fn element(id: usize, page_id: usize, kind: ElementType, text: &str, bbox: BBox) -> Element {
    Element {
        id,
        layout_block_id: 0,
        kind,
        text_block: ElementText { text: text.to_string() },
        page_id,
        bbox,
    }
}

#[test]
fn parse_test_merge_adjacent_text_blocks() {
    let bbox1 = bb(0, 0, 20, 20);
    let bbox2 = bb(0, 21, 20, 41);

    let elements = vec![
        element(0, 1, ElementType::Text, "First paragraph", bbox1),
        element(1, 1, ElementType::Text, "Second paragraph", bbox2),
    ];

    let blocks = merge_elements_into_blocks(elements, &vec![]);

    // Adjacent text elements are deliberately not coalesced: each text
    // element maps to exactly one text block.
    assert_eq!(blocks.len(), 2);
    if let BlockType::TextBlock(text) = &blocks[0].kind {
        assert!(text.text.contains("First paragraph"));
    } else {
        panic!("Expected TextBlock");
    }
    if let BlockType::TextBlock(text) = &blocks[1].kind {
        assert!(text.text.contains("Second paragraph"));
    } else {
        panic!("Expected TextBlock");
    }
}

#[test]
fn parse_test_merge_list_items() {
    let bbox1 = bb(0, 0, 20, 20);
    let bbox2 = bb(0, 21, 20, 41);

    let elements = vec![
        element(0, 1, ElementType::ListItem, "First item", bbox1),
        element(1, 1, ElementType::ListItem, "Second item", bbox2),
        element(2, 1, ElementType::Text, "Random text", bbox2),
    ];

    let blocks = merge_elements_into_blocks(elements, &vec![]);

    assert_eq!(blocks.len(), 2);
    if let BlockType::ListBlock(list) = &blocks[0].kind {
        assert_eq!(list.items.len(), 2);
        assert_eq!(list.items[0], "First item");
        assert_eq!(list.items[1], "Second item");
    } else {
        panic!("Expected ListItem");
    }
}

#[test]
fn parse_test_merge_caption_with_image() {
    let caption_bbox = bb(0, 0, 20, 20);
    let image_bbox = bb(0, 21, 20, 41);

    let elements = vec![
        element(0, 1, ElementType::Caption, "Image caption", caption_bbox),
        element(1, 1, ElementType::Image, "", image_bbox),
    ];

    let blocks = merge_elements_into_blocks(elements, &vec![]);

    assert_eq!(blocks.len(), 1);
    if let BlockType::Image(image) = &blocks[0].kind {
        assert_eq!(image.caption, Some("Image caption".to_string()));
    } else {
        panic!("Expected Image");
    }
}

#[test]
fn parse_test_merge_orphan_caption_becomes_text() {
    let caption_bbox = bb(0, 0, 20, 20);

    let elements = vec![element(0, 1, ElementType::Caption, "Orphan caption", caption_bbox)];

    let blocks = merge_elements_into_blocks(elements, &vec![]);

    assert_eq!(blocks.len(), 1);
    if let BlockType::TextBlock(text) = &blocks[0].kind {
        assert_eq!(text.text, "Orphan caption");
    } else {
        panic!("Expected TextBlock");
    }
}

#[test]
fn parse_test_merge_distant_text_blocks_not_merged() {
    let bbox1 = bb(0, 0, 20, 20);
    let bbox2 = bb(0, 200, 20, 220); // Far away

    let elements = vec![
        element(0, 1, ElementType::Text, "First paragraph", bbox1),
        element(1, 1, ElementType::Text, "Distant paragraph", bbox2),
    ];

    let blocks = merge_elements_into_blocks(elements, &vec![]);

    assert_eq!(blocks.len(), 2);
}

#[test]
fn parse_test_merge_image_last_element() {
    let image_bbox = bb(0, 0, 20, 20);

    let elements = vec![element(0, 1, ElementType::Image, "", image_bbox)];

    let blocks = merge_elements_into_blocks(elements, &vec![]);

    assert_eq!(blocks.len(), 1);
    if let BlockType::Image(image) = &blocks[0].kind {
        assert_eq!(image.caption, None);
    } else {
        panic!("Expected Image block");
    }
}

#[test]
fn parse_test_merge_image_with_following_caption() {
    let image_bbox = bb(0, 0, 20, 20);
    let caption_bbox = bb(0, 21, 20, 41);

    let elements = vec![
        element(0, 1, ElementType::Image, "", image_bbox),
        element(1, 1, ElementType::Caption, "Image Description", caption_bbox),
    ];

    let blocks = merge_elements_into_blocks(elements, &vec![]);

    assert_eq!(blocks.len(), 1);
    if let BlockType::Image(image) = &blocks[0].kind {
        assert_eq!(image.caption, Some("Image Description".to_string()));
    } else {
        panic!("Expected Image block with caption");
    }
}

#[test]
fn parse_test_merge_image_with_following_non_caption() {
    let image_bbox = bb(0, 0, 20, 20);
    let text_bbox = bb(0, 21, 20, 41);

    let elements = vec![
        element(0, 1, ElementType::Image, "", image_bbox),
        element(1, 1, ElementType::Text, "Regular text", text_bbox),
    ];

    let blocks = merge_elements_into_blocks(elements, &vec![]);

    assert_eq!(blocks.len(), 2);
    if let BlockType::Image(image) = &blocks[0].kind {
        assert_eq!(image.caption, None);
    } else {
        panic!("Expected Image block without caption");
    }

    if let BlockType::TextBlock(text) = &blocks[1].kind {
        assert_eq!(text.text, "Regular text");
    } else {
        panic!("Expected Text block");
    }
}

#[test]
fn parse_test_merge_image_with_footnote() {
    let image_bbox = bb(0, 0, 20, 20);
    let footnote_bbox = bb(0, 21, 20, 41);

    let elements = vec![
        element(0, 1, ElementType::Image, "", image_bbox),
        element(1, 1, ElementType::FootNote, "Image Footnote", footnote_bbox),
    ];

    let blocks = merge_elements_into_blocks(elements, &vec![]);

    assert_eq!(blocks.len(), 1);
    if let BlockType::Image(image) = &blocks[0].kind {
        assert_eq!(image.caption, Some("Image Footnote".to_string()));
    } else {
        panic!("Expected Image block with footnote as caption");
    }
}
