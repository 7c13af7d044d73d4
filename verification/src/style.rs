use vstd::prelude::*;

verus! {

/// A color, four channels.
#[derive(Debug, Clone, Copy, PartialEq, Eq, Structural)]
pub struct Rgba(pub u8, pub u8, pub u8, pub u8);

/// The part of an element's style that rendering reads: the text color and
/// the font size.  Layout-only properties belong to the layout collaborator.
#[derive(Debug, Clone, Copy, PartialEq, Eq, Structural)]
pub struct Style {
    pub font_size: u32,
    pub color: Rgba,
}

/// The window: the size of the render surface and its background color.
#[derive(Debug, Clone, Copy)]
pub struct WindowStyle {
    pub width: u32,
    pub height: u32,
    pub background_color: Option<Rgba>,
}

} // verus!
