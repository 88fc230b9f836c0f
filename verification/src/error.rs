//! The library's error type and the policy behind it: a fatal condition
//! (bad document, bad page range, cancellation) aborts a parse, while a
//! per-page failure only costs that page.

use vstd::prelude::*;
use vstd::string::StringExecFns;

verus! {

/// Everything that can go wrong while parsing a document.
#[derive(Debug, Clone, Copy, PartialEq, Eq, Structural)]
pub enum FerrulesError {
    /// The document bytes could not be loaded (malformed or wrong
    /// password). Fatal.
    DocumentLoad,
    /// The requested page range ends past the document. Fatal before any
    /// page is emitted.
    PageRangeOutOfBounds { end: usize, len: usize },
    /// A page failed during native extraction; the page is omitted.
    NativePage,
    /// Layout inference failed or was cancelled for a page; the page is
    /// omitted.
    LayoutInference,
    /// The OCR fallback failed; the page keeps its native lines.
    Ocr,
    /// The caller's cancellation predicate fired. Fatal at the checkpoint.
    Cancelled,
    /// A page range string could not be read.
    PageRangeSyntax,
    /// An element of one kind was pushed into a block of another.
    BlockMerge,
}

impl FerrulesError {
    /// Whether this error aborts the whole parse rather than one page.
    pub open spec fn spec_is_fatal(self) -> bool {
        self is DocumentLoad || self is PageRangeOutOfBounds || self is Cancelled
    }

    pub fn is_fatal(&self) -> (r: bool)
        ensures
            r == self.spec_is_fatal(),
    {
        match self {
            FerrulesError::DocumentLoad => true,
            FerrulesError::PageRangeOutOfBounds { .. } => true,
            FerrulesError::Cancelled => true,
            _ => false,
        }
    }

    /// A short description of the error.
    pub fn message(&self) -> (r: String)
    {
        match self {
            FerrulesError::DocumentLoad => String::from_str("could not load the document"),
            FerrulesError::PageRangeOutOfBounds { .. } => String::from_str(
                "page range end exceeds document length",
            ),
            FerrulesError::NativePage => String::from_str("native extraction failed on a page"),
            FerrulesError::LayoutInference => String::from_str("layout inference failed"),
            FerrulesError::Ocr => String::from_str("character recognition failed"),
            FerrulesError::Cancelled => String::from_str("parsing was cancelled"),
            FerrulesError::PageRangeSyntax => String::from_str("invalid page range"),
            FerrulesError::BlockMerge => String::from_str("cannot merge element into block"),
        }
    }
}

} // verus!
