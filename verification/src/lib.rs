pub mod context;
pub mod element;
pub mod font;
pub mod geom;
pub mod glyph;
pub mod style;
pub mod textarea;
pub mod writer;

use vstd::prelude::*;

verus! {

/// The failures this library reports to its callers.
#[derive(Debug, Clone, Copy, PartialEq, Eq, Structural)]
pub enum Error {
    /// Caller-supplied font bytes could not be parsed into a font.
    InvalidFontBytes,
    /// No font at any tier supports a character, or a recorded font is absent.
    NotFoundSpecifiedFontFamily,
    /// A requested byte range lies in no fragment or crosses a boundary.
    OutOfRangeText,
    /// An element slot held no content when painting.
    NullElement,
    /// Image data for a container surface was absent.
    NotFoundContainerImage,
    /// A drawing or encoding primitive of the render target failed.
    RenderTargetFailure,
}

} // verus!
