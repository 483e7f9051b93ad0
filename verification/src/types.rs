use vstd::prelude::*;

verus! {

/// A page rotation override: one of the four orientations a PDF page can be
/// given. Absence of an override (an `Option<Rotation>` that is `None`) means
/// the page's existing rotation is left untouched.
#[derive(Clone, Copy, PartialEq, Eq, Structural, Debug)]
pub enum Rotation {
    R0,
    R90,
    R180,
    R270,
}

/// Why a range expression was rejected. Syntax errors (`MalformedNumber`,
/// `MissingBound`, `InvalidRotation`) are detected before any page bound is
/// interpreted; semantic errors (`StartAfterEnd`, `OutOfBounds`) concern
/// bounds that parsed but do not fit the source document.
#[derive(Clone, Copy, PartialEq, Eq, Structural, Debug)]
pub enum ParseError {
    /// A page bound is not the literal `end` and not a positive integer.
    MalformedNumber,
    /// A page bound is empty, as in `"3-"` or an empty unit.
    MissingBound,
    /// An `r` suffix is not followed by exactly `0`, `90`, `180` or `270`.
    InvalidRotation,
    /// A resolved interval runs backwards: its start exceeds its end.
    StartAfterEnd,
    /// A page bound resolves past the last page of the document.
    OutOfBounds,
}

/// A parsed, validated unit of a range expression: an inclusive span of
/// zero-based source page indices, with an optional rotation applied
/// uniformly to every page of the span.
#[derive(Clone, Copy, PartialEq, Eq, Debug)]
pub struct PageRange {
    /// First page of the span, zero-based, inclusive.
    pub start: u32,
    /// Last page of the span, zero-based, inclusive; never below `start`.
    pub end: u32,
    /// Rotation override shared by the whole span; `None` leaves each page's
    /// existing rotation untouched.
    pub rotation: Option<Rotation>,
}

impl PageRange {
    /// A range is well formed when its span is non-empty in the inclusive
    /// sense: the start does not exceed the end.
    pub open spec fn wf(self) -> bool {
        self.start <= self.end
    }

    /// A range is valid for a document when it is well formed and lies
    /// entirely within the document's pages.
    pub open spec fn valid_for(self, page_count: u32) -> bool {
        self.wf() && self.end < page_count
    }
}

/// One step of an extraction plan: copy source page `source_index` to the
/// end of the destination (which at that moment holds exactly
/// `target_index` pages), then apply `rotation_override` if present.
#[derive(Clone, Copy, PartialEq, Eq, Debug)]
pub struct CopyInstruction {
    /// Zero-based index of the page in the source document.
    pub source_index: u32,
    /// Zero-based index the page receives in the destination document;
    /// instructions are emitted with strictly increasing target indices,
    /// starting at zero.
    pub target_index: usize,
    /// Rotation to give the copied page, or `None` to leave it as copied.
    pub rotation_override: Option<Rotation>,
}

/// One step of a concatenation plan: copy page `source_index` of input
/// document `doc_index` to position `target_index` of the destination.
/// Rotation is never touched during concatenation.
#[derive(Clone, Copy, PartialEq, Eq, Debug)]
pub struct DocCopy {
    /// Zero-based index of the input document the page comes from.
    pub doc_index: usize,
    /// Zero-based index of the page within that input document.
    pub source_index: u32,
    /// Zero-based index the page receives in the destination document.
    pub target_index: usize,
}

} // verus!
