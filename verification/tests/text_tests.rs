// Character-level repair: UTF-8 reconstruction, ligature repair, control
// character removal.

use ferrules::text::{
    determine_ligature_from_context, fix_ligature_corruption, fix_utf8_corruption,
    remove_control_characters,
};

#[test]
fn reconstructs_three_byte_sequence() {
    // The bytes of U+2211 (n-ary summation) spelled out as characters.
    let corrupted = "x\u{e2}\u{88}\u{91}y";
    assert_eq!(fix_utf8_corruption(corrupted), "x\u{2211}y");
}

#[test]
fn reconstructs_four_byte_sequence() {
    // The bytes of U+1F600 spelled out as characters.
    let corrupted = "\u{f0}\u{9f}\u{98}\u{80}";
    assert_eq!(fix_utf8_corruption(corrupted), "\u{1f600}");
}

#[test]
fn overlong_lead_is_left_alone() {
    // 0xF0 followed by 0x80..0x8F would be an overlong encoding; the
    // characters pass through one by one instead.
    let corrupted = "\u{f0}\u{8f}\u{80}\u{80}";
    assert_eq!(fix_utf8_corruption(corrupted), corrupted);
}

#[test]
fn plain_text_is_unchanged() {
    assert_eq!(fix_utf8_corruption("long-context e-mail"), "long-context e-mail");
    assert_eq!(fix_utf8_corruption(""), "");
}

#[test]
fn removes_control_characters_keeps_whitespace() {
    assert_eq!(remove_control_characters("a\u{1}b\tc\nd\re"), "ab\tc\nd\re");
    assert_eq!(fix_utf8_corruption("a\u{0}b"), "ab");
}

#[test]
fn repairs_fi_ligature_corruption() {
    assert_eq!(fix_ligature_corruption("speci#c"), "specific");
    assert_eq!(fix_utf8_corruption("speci#c"), "specific");
}

#[test]
fn repairs_fl_ligature_corruption() {
    assert_eq!(fix_ligature_corruption("work!ows"), "workflows");
}

#[test]
fn repairs_ff_ligature_corruption() {
    assert_eq!(fix_ligature_corruption("e\u{22}ective"), "effective");
}

#[test]
fn repairs_standalone_corruption() {
    // A digit before the symbol keeps the contextual pass (which wants
    // letters on both sides) away, so only the standalone pass fires.
    assert_eq!(fix_ligature_corruption("1#ne"), "1fine");
    assert_eq!(fix_ligature_corruption("2#rst"), "2first");
}

#[test]
fn ligature_context_rules() {
    assert_eq!(determine_ligature_from_context("work", "ows", "!"), "fl");
    assert_eq!(determine_ligature_from_context("e", "ective", "\u{22}"), "ff");
    assert_eq!(determine_ligature_from_context("speci", "c", "#"), "fi");
    assert_eq!(determine_ligature_from_context("o", "ice", "\u{22}"), "ff");
    assert_eq!(determine_ligature_from_context("x", "zzz", "&"), "ff");
    assert_eq!(determine_ligature_from_context("x", "zzz", "@"), "fi");
}
