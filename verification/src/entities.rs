//! Page elements: the intermediate structured units a page assembles
//! before block merging, together with page and document metadata records.

use vstd::prelude::*;
use vstd::string::StringExecFns;

use crate::geom::BBox;
use crate::layout::{LayoutBBox, LayoutLabel};

verus! {

pub type PageID = usize;

pub type ElementID = usize;

/// Version string reported in document metadata.
pub const FERRULES_VERSION: &'static str = "0.1.0";

/// Incrementally grown element text; lines after the first are separated
/// by a single space.
#[derive(Debug)]
pub struct ElementText {
    pub text: String,
}

impl Clone for ElementText {
    fn clone(&self) -> (r: Self)
        ensures
            r.text@ == self.text@,
    {
        ElementText { text: self.text.clone() }
    }
}

impl ElementText {
    pub fn new_empty() -> (r: Self)
        ensures
            r.text@ == Seq::<char>::empty(),
    {
        ElementText { text: String::new() }
    }

    pub fn is_empty(&self) -> (r: bool)
        ensures
            r == (self.text@.len() == 0),
    {
        self.text.as_str().is_empty()
    }

    /// Install the first line's text.
    pub fn push_first(&mut self, txt: &str)
        ensures
            final(self).text@ == old(self).text@ + txt@,
    {
        self.text.append(txt);
    }

    /// Append a further line, separated by a single space.
    pub fn append_line(&mut self, txt: &str)
        ensures
            final(self).text@ == old(self).text@ + seq![' '] + txt@,
    {
        proof {
            reveal_strlit(" ");
        }
        self.text.append(" ");
        self.text.append(txt);
        proof {
            assert(old(self).text@ + " "@ + txt@ =~= old(self).text@ + seq![' '] + txt@);
        }
    }
}

/// The role an element plays on its page.
#[derive(Debug, Clone, Copy, PartialEq, Eq, Structural)]
pub enum ElementType {
    Header,
    FootNote,
    Footer,
    Text,
    Title,
    Subtitle,
    ListItem,
    Caption,
    Image,
    Table,
}

/// The element role a layout label maps to; the mapping is total over the
/// label set.
pub open spec fn spec_kind_of_label(label: LayoutLabel) -> ElementType {
    match label {
        LayoutLabel::Caption => ElementType::Caption,
        LayoutLabel::Formula => ElementType::Text,
        LayoutLabel::Text => ElementType::Text,
        LayoutLabel::ListItem => ElementType::ListItem,
        LayoutLabel::Footnote => ElementType::FootNote,
        LayoutLabel::PageFooter => ElementType::Footer,
        LayoutLabel::PageHeader => ElementType::Header,
        LayoutLabel::Title => ElementType::Title,
        LayoutLabel::SectionHeader => ElementType::Subtitle,
        LayoutLabel::Table => ElementType::Table,
        LayoutLabel::Picture => ElementType::Image,
    }
}

/// An intermediate structured unit: a piece of one page, usually backed by
/// one layout region (`layout_block_id` is -1 for synthesized elements).
#[derive(Debug)]
pub struct Element {
    pub id: ElementID,
    pub layout_block_id: i32,
    pub text_block: ElementText,
    pub kind: ElementType,
    pub page_id: PageID,
    pub bbox: BBox,
}

/// Mathematical model of an `Element`.
pub struct ElementV {
    pub id: ElementID,
    pub layout_block_id: i32,
    pub text: Seq<char>,
    pub kind: ElementType,
    pub page_id: PageID,
    pub bbox: BBox,
}

impl View for Element {
    type V = ElementV;

    open spec fn view(&self) -> ElementV {
        ElementV {
            id: self.id,
            layout_block_id: self.layout_block_id,
            text: self.text_block.text@,
            kind: self.kind,
            page_id: self.page_id,
            bbox: self.bbox,
        }
    }
}

impl Clone for Element {
    fn clone(&self) -> (r: Self)
        ensures
            r@ == self@,
    {
        Element {
            id: self.id,
            layout_block_id: self.layout_block_id,
            text_block: self.text_block.clone(),
            kind: self.kind,
            page_id: self.page_id,
            bbox: self.bbox,
        }
    }
}

impl Element {
    /// Start an element from a layout region: the region's box and mapped
    /// kind, with empty text.
    pub fn from_layout_block(id: usize, layout_block: &LayoutBBox, page_id: usize) -> (r: Self)
        ensures
            r.id == id,
            r.layout_block_id == layout_block.id,
            r.kind == spec_kind_of_label(layout_block.label),
            r.page_id == page_id,
            r.bbox == layout_block.bbox,
            r.text_block.text@ == Seq::<char>::empty(),
    {
        let kind = match layout_block.label {
            LayoutLabel::Caption => ElementType::Caption,
            LayoutLabel::Formula => ElementType::Text,
            LayoutLabel::Text => ElementType::Text,
            LayoutLabel::ListItem => ElementType::ListItem,
            LayoutLabel::Footnote => ElementType::FootNote,
            LayoutLabel::PageFooter => ElementType::Footer,
            LayoutLabel::PageHeader => ElementType::Header,
            LayoutLabel::Title => ElementType::Title,
            LayoutLabel::SectionHeader => ElementType::Subtitle,
            LayoutLabel::Table => ElementType::Table,
            LayoutLabel::Picture => ElementType::Image,
        };
        Element {
            id,
            kind,
            layout_block_id: layout_block.id,
            page_id,
            text_block: ElementText::new_empty(),
            bbox: layout_block.bbox,
        }
    }

    /// The element's text after one more line lands in it: the first line
    /// as is, later ones separated by a single space.
    pub open spec fn spec_text_after_line(self, line_text: Seq<char>) -> Seq<char> {
        if self.text_block.text@.len() == 0 {
            line_text
        } else {
            self.text_block.text@ + seq![' '] + line_text
        }
    }

    /// Add one line's text to the element.
    pub fn push_line(&mut self, line: &Line)
        ensures
            final(self).text_block.text@ == old(self).spec_text_after_line(line.text@),
            final(self).id == old(self).id,
            final(self).layout_block_id == old(self).layout_block_id,
            final(self).kind == old(self).kind,
            final(self).page_id == old(self).page_id,
            final(self).bbox == old(self).bbox,
    {
        if self.text_block.is_empty() {
            self.text_block.push_first(line.text.as_str());
            proof {
                assert(old(self).text_block.text@ + line.text@ =~= line.text@);
            }
        } else {
            self.text_block.append_line(line.text.as_str());
        }
    }
}

/// A run of characters sharing font name, weight, unscaled size and
/// rotation; its box is the union of its characters' boxes.
#[derive(Debug)]
pub struct CharSpan {
    pub bbox: BBox,
    pub text: String,
    pub rotation: i32,
    pub font_name: String,
    pub font_size: i64,
    pub font_weight: Option<i32>,
    pub char_start_idx: usize,
    pub char_end_idx: usize,
}

/// An ordered run of same-rotation spans believed to lie on one baseline.
#[derive(Debug)]
pub struct Line {
    pub text: String,
    pub bbox: BBox,
    pub rotation: i32,
    pub spans: Vec<CharSpan>,
}

/// A page record of the final document: geometry and whether OCR ran.
#[derive(Debug, Clone)]
pub struct Page {
    pub id: PageID,
    pub width: i64,
    pub height: i64,
    pub need_ocr: bool,
}

/// A parsed page before block merging: its elements in reading order.
#[derive(Debug, Clone)]
pub struct StructuredPage {
    pub id: PageID,
    pub width: i64,
    pub height: i64,
    pub need_ocr: bool,
    pub elements: Vec<Element>,
}

/// Timing of one page's native extraction.
#[derive(Debug, Clone, Copy, PartialEq, Eq, Structural)]
pub struct ParseNativeMetadata {
    pub parse_native_duration_ms: u64,
}

/// Timing and version information of one parse run.
#[derive(Debug, Clone)]
pub struct DocumentMetadata {
    pub parsing_duration_ms: u64,
    pub ferrules_version: String,
}

impl DocumentMetadata {
    pub fn new(parsing_duration_ms: u64) -> (r: Self)
        ensures
            r.parsing_duration_ms == parsing_duration_ms,
            r.ferrules_version@ == FERRULES_VERSION@,
    {
        DocumentMetadata {
            parsing_duration_ms,
            ferrules_version: String::from_str(FERRULES_VERSION),
        }
    }
}

} // verus!
