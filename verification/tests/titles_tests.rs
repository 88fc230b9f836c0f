// Title levels: the 0.7 merge sweep over clustered heading heights.

use ferrules::entities::{Element, ElementText, ElementType};
use ferrules::geom::BBox;
use ferrules::titles::{title_level_of, title_levels_from_clusters, TitleLevelEntry};

fn title(id: usize, page_id: usize, height: i64) -> Element {
    Element {
        id,
        layout_block_id: 0,
        kind: ElementType::Title,
        text_block: ElementText { text: "t".to_string() },
        page_id,
        bbox: BBox { x0: 0, y0: 0, x1: 100, y1: height },
    }
}

#[test]
fn levels_with_three_centroids() {
    // Centroids 24, 18, 8: 18 is at least 0.7 * 24 = 16.8, so it shares
    // level 1; 8 falls below 0.7 * 18 = 12.6 and opens level 2.
    let titles = vec![title(0, 0, 24), title(1, 0, 18), title(2, 1, 8)];
    let centroids = vec![24, 18, 8];
    let assignments = vec![0, 1, 2];
    let entries = title_levels_from_clusters(&titles, &centroids, &assignments);
    assert_eq!(entries.len(), 3);
    assert_eq!(entries[0].level, 1);
    assert_eq!(entries[1].level, 1);
    assert_eq!(entries[2].level, 2);
    // Entries are keyed by page and element id.
    assert_eq!(entries[2].page_id, 1);
    assert_eq!(entries[2].element_id, 2);
}

#[test]
fn levels_monotone_in_height() {
    // Tallest tier gets the smallest level; of two titles on different
    // levels, the lower-levelled one is at least 0.7 times as tall.
    let heights = vec![40, 30, 20, 13, 5];
    let titles: Vec<Element> = (0..5).map(|i| title(i, 0, heights[i])).collect();
    let centroids = heights.clone();
    let assignments = vec![0, 1, 2, 3, 4];
    let entries = title_levels_from_clusters(&titles, &centroids, &assignments);
    for a in 0..entries.len() {
        for b in 0..entries.len() {
            if entries[a].level < entries[b].level {
                assert!(10 * heights[a] >= 7 * heights[b]);
            }
        }
    }
    assert_eq!(entries[0].level, 1);
    assert!(entries[4].level > entries[0].level);
}

#[test]
fn unknown_title_key_defaults_to_zero() {
    let entries = vec![TitleLevelEntry { page_id: 0, element_id: 3, level: 2 }];
    assert_eq!(title_level_of(&entries, 0, 3), 2);
    assert_eq!(title_level_of(&entries, 1, 3), 0);
    assert_eq!(title_level_of(&entries, 0, 4), 0);
}
