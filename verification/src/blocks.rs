//! Final output blocks: the typed semantic units a document is made of.

use vstd::prelude::*;
use vstd::string::StringExecFns;

use crate::entities::{Element, ElementType, PageID};
use crate::geom::BBox;

verus! {

/// A figure, with the caption text that was fused into it, if any.
#[derive(Debug)]
pub struct ImageBlock {
    pub caption: Option<String>,
}

/// A plain run of text.
#[derive(Debug)]
pub struct TextBlock {
    pub text: String,
}

impl TextBlock {
    /// Append a further line, separated by a single space.
    pub fn append_line(&mut self, txt: &str)
        ensures
            final(self).text@ == old(self).text@ + seq![' '] + txt@,
    {
        proof {
            reveal_strlit(" ");
        }
        self.text.append(" ");
        self.text.append(txt);
        proof {
            assert(old(self).text@ + " "@ + txt@ =~= old(self).text@ + seq![' '] + txt@);
        }
    }
}

/// A list: one string per item.
#[derive(Debug)]
pub struct List {
    pub items: Vec<String>,
}

/// A heading with its hierarchy level; level 1 is the tallest tier, 0
/// means no level was assigned.
#[derive(Debug)]
pub struct Title {
    pub level: u8,
    pub text: String,
}

/// The kind of a block, a discriminated union over the output unit types.
#[derive(Debug)]
pub enum BlockType {
    Header(TextBlock),
    Footer(TextBlock),
    Title(Title),
    ListBlock(List),
    TextBlock(TextBlock),
    Image(ImageBlock),
    Table,
}

impl BlockType {
    /// Whether the block carries running text (anything but a figure or a
    /// table).
    pub open spec fn spec_is_text(&self) -> bool {
        !(self is Image) && !(self is Table)
    }

    pub fn is_text(&self) -> (r: bool)
        ensures
            r == self.spec_is_text(),
    {
        match self {
            BlockType::Header(_) => true,
            BlockType::Footer(_) => true,
            BlockType::Title(_) => true,
            BlockType::ListBlock(_) => true,
            BlockType::TextBlock(_) => true,
            BlockType::Image(_) => false,
            BlockType::Table => false,
        }
    }
}

/// One output unit: its kind, the pages it came from and its bounds.
#[derive(Debug)]
pub struct Block {
    pub id: usize,
    pub kind: BlockType,
    pub pages_id: Vec<PageID>,
    pub bbox: BBox,
}

/// Mathematical model of a block's kind.
pub enum BlockKindV {
    Header { text: Seq<char> },
    Footer { text: Seq<char> },
    Title { level: u8, text: Seq<char> },
    List { items: Seq<Seq<char>> },
    Text { text: Seq<char> },
    Image { caption: Option<Seq<char>> },
    Table,
}

/// Mathematical model of a `Block`.
pub struct BlockV {
    pub id: usize,
    pub kind: BlockKindV,
    pub pages_id: Seq<PageID>,
    pub bbox: BBox,
}

impl View for Block {
    type V = BlockV;

    open spec fn view(&self) -> BlockV {
        BlockV {
            id: self.id,
            kind: match self.kind {
                BlockType::Header(ref t) => BlockKindV::Header { text: t.text@ },
                BlockType::Footer(ref t) => BlockKindV::Footer { text: t.text@ },
                BlockType::Title(ref t) => BlockKindV::Title { level: t.level, text: t.text@ },
                BlockType::ListBlock(ref l) => BlockKindV::List {
                    items: l.items@.map_values(|s: String| s@),
                },
                BlockType::TextBlock(ref t) => BlockKindV::Text { text: t.text@ },
                BlockType::Image(ref i) => BlockKindV::Image {
                    caption: match i.caption {
                        Some(ref c) => Some(c@),
                        None => None,
                    },
                },
                BlockType::Table => BlockKindV::Table,
            },
            pages_id: self.pages_id@,
            bbox: self.bbox,
        }
    }
}

/// What absorbing an element does to a block, when the kinds agree: the
/// boxes merge, and the text grows by a line-feed-separated line (for a
/// list, one more item).
pub open spec fn spec_block_merge(b: BlockV, e: crate::entities::ElementV) -> Option<BlockV> {
    match b.kind {
        BlockKindV::Text { text } => if e.kind == ElementType::Text {
            Some(
                BlockV {
                    kind: BlockKindV::Text { text: text + seq!['\n'] + e.text },
                    bbox: b.bbox.spec_merge(e.bbox),
                    ..b
                },
            )
        } else {
            None
        },
        BlockKindV::List { items } => if e.kind == ElementType::ListItem {
            Some(
                BlockV {
                    kind: BlockKindV::List { items: items.push(e.text) },
                    bbox: b.bbox.spec_merge(e.bbox),
                    ..b
                },
            )
        } else {
            None
        },
        BlockKindV::Header { text } => if e.kind == ElementType::Header {
            Some(
                BlockV {
                    kind: BlockKindV::Header { text: text + seq!['\n'] + e.text },
                    bbox: b.bbox.spec_merge(e.bbox),
                    ..b
                },
            )
        } else {
            None
        },
        BlockKindV::Footer { text } => if e.kind == ElementType::Footer {
            Some(
                BlockV {
                    kind: BlockKindV::Footer { text: text + seq!['\n'] + e.text },
                    bbox: b.bbox.spec_merge(e.bbox),
                    ..b
                },
            )
        } else {
            None
        },
        _ => None,
    }
}

impl Block {
    /// Absorb an element of the matching kind into this block; on a
    /// mismatch the block is unchanged and an error comes back.
    pub fn merge(&mut self, element: &Element) -> (r: Result<(), crate::error::FerrulesError>)
        ensures
            spec_block_merge(old(self)@, element@) matches Some(b) ==> (r is Ok && final(self)@
                == b),
            spec_block_merge(old(self)@, element@) is None ==> (r is Err && *final(self) == *old(
                self,
            )),
    {
        proof {
            reveal_strlit("\n");
        }
        match &mut self.kind {
            BlockType::TextBlock(text) => {
                if let ElementType::Text = element.kind {
                    let ghost oldtext = text.text@;
                    self.bbox.merge(&element.bbox);
                    text.text.append("\n");
                    text.text.append(element.text_block.text.as_str());
                    proof {
                        assert(text.text@ =~= oldtext + seq!['\n'] + element@.text);
                    }
                    Ok(())
                } else {
                    Err(crate::error::FerrulesError::BlockMerge)
                }
            },
            BlockType::ListBlock(list) => {
                if let ElementType::ListItem = element.kind {
                    let ghost olditems = list.items@.map_values(|s: String| s@);
                    self.bbox.merge(&element.bbox);
                    list.items.push(element.text_block.text.clone());
                    proof {
                        assert(list.items@.map_values(|s: String| s@) =~= olditems.push(
                            element@.text,
                        ));
                    }
                    Ok(())
                } else {
                    Err(crate::error::FerrulesError::BlockMerge)
                }
            },
            BlockType::Header(text) => {
                if let ElementType::Header = element.kind {
                    let ghost oldtext = text.text@;
                    self.bbox.merge(&element.bbox);
                    text.text.append("\n");
                    text.text.append(element.text_block.text.as_str());
                    proof {
                        assert(text.text@ =~= oldtext + seq!['\n'] + element@.text);
                    }
                    Ok(())
                } else {
                    Err(crate::error::FerrulesError::BlockMerge)
                }
            },
            BlockType::Footer(text) => {
                if let ElementType::Footer = element.kind {
                    let ghost oldtext = text.text@;
                    self.bbox.merge(&element.bbox);
                    text.text.append("\n");
                    text.text.append(element.text_block.text.as_str());
                    proof {
                        assert(text.text@ =~= oldtext + seq!['\n'] + element@.text);
                    }
                    Ok(())
                } else {
                    Err(crate::error::FerrulesError::BlockMerge)
                }
            },
            _ => Err(crate::error::FerrulesError::BlockMerge),
        }
    }

    /// A short tag naming the block's kind.
    pub fn label(&self) -> (r: &'static str) {
        match self.kind {
            BlockType::Header(_) => "HEADER",
            BlockType::Footer(_) => "FOOTER",
            BlockType::TextBlock(_) => "TEXT",
            BlockType::Title(_) => "TITLE",
            BlockType::ListBlock(_) => "LIST",
            BlockType::Image(_) => "Image",
            BlockType::Table => "TABLE",
        }
    }
}

} // verus!
