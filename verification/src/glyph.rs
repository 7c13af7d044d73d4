use vstd::prelude::*;
use crate::font::FontIndexStore;
use crate::geom::ByteRange;

verus! {

/// The mathematical value of a glyph run: paragraph-global byte bounds and
/// the tier that covered them.
pub struct GlyphModel {
    pub start: int,
    pub end: int,
    pub store: FontIndexStore,
}

impl GlyphModel {
    /// True when `[start, end)` lies fully inside this run.
    pub open spec fn spec_contains(self, start: int, end: int) -> bool {
        self.start <= start && end <= self.end
    }
}

/// A maximal contiguous sub-range of a fragment's text resolved to one font
/// tier.  Offsets are paragraph-global bytes.
#[derive(Debug, Clone, Copy, PartialEq, Eq, Structural)]
pub struct Glyph {
    pub range: ByteRange,
    pub font_index_store: FontIndexStore,
}

impl Glyph {
    pub fn new(range: ByteRange, font_index_store: FontIndexStore) -> (r: Glyph)
        ensures
            r == (Glyph { range, font_index_store }),
    {
        Glyph { range, font_index_store }
    }
}

impl View for Glyph {
    type V = GlyphModel;

    open spec fn view(&self) -> GlyphModel {
        GlyphModel {
            start: self.range.start as int,
            end: self.range.end as int,
            store: self.font_index_store,
        }
    }
}

impl DeepView for Glyph {
    type V = GlyphModel;

    open spec fn deep_view(&self) -> GlyphModel {
        self.view()
    }
}

} // verus!
