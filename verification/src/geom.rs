use vstd::prelude::*;

verus! {

/// A half-open range of paragraph byte offsets, `start <= b < end`.
#[derive(Debug, Clone, Copy, PartialEq, Eq, Structural)]
pub struct ByteRange {
    pub start: usize,
    pub end: usize,
}

impl ByteRange {
    /// True when `[start, end)` lies fully inside `self`.
    pub open spec fn spec_contains(self, start: int, end: int) -> bool {
        self.start <= start && end <= self.end
    }
}

/// A target rectangle on the render surface.
#[derive(Debug, Clone, Copy, PartialEq, Eq, Structural)]
pub struct Rect {
    pub x: u32,
    pub y: u32,
    pub width: u32,
    pub height: u32,
}

/// One layout-produced rendering row: a paragraph byte range and where it is
/// drawn.  Lines are consumed from the line-breaking collaborator.
#[derive(Debug, Clone, Copy, PartialEq, Eq, Structural)]
pub struct Line {
    pub range: ByteRange,
    pub rect: Rect,
}

} // verus!
