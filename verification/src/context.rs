use vstd::prelude::*;
use crate::font::{CodeRange, Font};
use crate::style::Rgba;
use crate::Error;

verus! {

/// The mathematical value of one draw call.
pub enum DrawOpModel {
    Rect { color: Rgba, x: int, y: int, width: int, height: int },
    Image { data: Seq<u8>, x: int, y: int, width: int, height: int },
    Text { color: Rgba, x: int, y: int, font_size: int, font: Seq<CodeRange>, text: Seq<char> },
}

/// One recorded draw call: everything the rasterization backend would need
/// to perform it.
#[derive(Debug)]
#[allow(inconsistent_fields)]
pub enum DrawOp {
    Rect { color: Rgba, x: u32, y: u32, width: u32, height: u32 },
    Image { data: Vec<u8>, x: u32, y: u32, width: u32, height: u32 },
    Text { color: Rgba, x: u64, y: u32, font_size: u32, font: Vec<CodeRange>, text: Vec<char> },
}

impl View for DrawOp {
    type V = DrawOpModel;

    open spec fn view(&self) -> DrawOpModel {
        match self {
            DrawOp::Rect { color, x, y, width, height } => DrawOpModel::Rect {
                color: *color,
                x: *x as int,
                y: *y as int,
                width: *width as int,
                height: *height as int,
            },
            DrawOp::Image { data, x, y, width, height } => DrawOpModel::Image {
                data: data@,
                x: *x as int,
                y: *y as int,
                width: *width as int,
                height: *height as int,
            },
            DrawOp::Text { color, x, y, font_size, font, text } => DrawOpModel::Text {
                color: *color,
                x: *x as int,
                y: *y as int,
                font_size: *font_size as int,
                font: font@,
                text: text@,
            },
        }
    }
}

impl DeepView for DrawOp {
    type V = DrawOpModel;

    open spec fn deep_view(&self) -> DrawOpModel {
        self.view()
    }
}

/// Measured extents of a piece of text.
#[derive(Debug, Clone, Copy, PartialEq, Eq, Structural)]
pub struct FontMetrics {
    pub width: u64,
    pub height: u32,
}

/// The width the model target measures for a text: font size for every
/// character, capped at `u64::MAX`.
pub open spec fn spec_text_width(font_size: u32, count: int) -> int {
    if font_size * count > u64::MAX {
        u64::MAX as int
    } else {
        font_size * count
    }
}

/// `a + b`, capped at `u64::MAX`.
pub open spec fn spec_sat_add(a: int, b: int) -> int {
    if a + b > u64::MAX {
        u64::MAX as int
    } else {
        a + b
    }
}

pub fn sat_add_u64(a: u64, b: u64) -> (r: u64)
    ensures
        r == spec_sat_add(a as int, b as int),
{
    match a.checked_add(b) {
        Some(r) => r,
        None => u64::MAX,
    }
}

/// Copies a vector of plain values.
pub fn copy_vec<T: Copy>(v: &Vec<T>) -> (r: Vec<T>)
    ensures
        r@ =~= v@,
{
    let mut r: Vec<T> = Vec::new();
    let n = v.len();
    let mut i: usize = 0;
    while i < n
        invariant
            n == v@.len(),
            i <= n,
            r@ =~= v@.take(i as int),
        decreases n - i,
    {
        r.push(v[i]);
        proof {
            assert(r@ =~= v@.take(i + 1));
        }
        i += 1;
    }
    r
}

/// The render target: a surface of fixed size that records the draw calls
/// issued against it, in order.  Measurement uses the model metric of
/// [`spec_text_width`]; rasterization itself belongs to the backend that
/// consumes the recorded calls.
#[derive(Debug)]
pub struct Context {
    pub width: u32,
    pub height: u32,
    pub ops: Vec<DrawOp>,
}

impl Context {
    /// The draw calls issued so far, in order.
    pub open spec fn ops_model(self) -> Seq<DrawOpModel> {
        self.ops.deep_view()
    }

    pub fn new(width: u32, height: u32) -> (r: Context)
        ensures
            r.width == width,
            r.height == height,
            r.ops_model() =~= Seq::<DrawOpModel>::empty(),
    {
        Context { width, height, ops: Vec::new() }
    }

    /// Measures a text: the model metric, a square of the font size per
    /// character.  The font does not change the model metric; it is part of
    /// the measurement interface a rasterization backend exposes.
    #[allow(unused_variables)]
    pub fn text_extents(&self, text: &Vec<char>, font_size: u32, font: &Font) -> (m: FontMetrics)
        ensures
            m.width == spec_text_width(font_size, text@.len() as int),
            m.height == font_size,
    {
        let w = match (font_size as u64).checked_mul(text.len() as u64) {
            Some(w) => w,
            None => u64::MAX,
        };
        FontMetrics { width: w, height: font_size }
    }

    /// Measures one character.
    #[allow(unused_variables)]
    pub fn char_extents(&self, ch: char, font_size: u32, font: &Font) -> (m: FontMetrics)
        ensures
            m.width == font_size,
            m.height == font_size,
    {
        FontMetrics { width: font_size as u64, height: font_size }
    }

    /// Records a filled rectangle.  The model target accepts every call.
    pub fn draw_rect(&mut self, color: Rgba, x: u32, y: u32, width: u32, height: u32) -> (r: Result<
        (),
        Error,
    >)
        ensures
            r is Ok,
            final(self).ops_model() == old(self).ops_model().push(
                (DrawOpModel::Rect {
                    color,
                    x: x as int,
                    y: y as int,
                    width: width as int,
                    height: height as int,
                }),
            ),
            final(self).width == old(self).width,
            final(self).height == old(self).height,
    {
        let ghost before = self.ops.deep_view();
        self.ops.push(DrawOp::Rect { color, x, y, width, height });
        proof {
            assert(self.ops.deep_view() =~= before.push(
                (DrawOpModel::Rect {
                    color,
                    x: x as int,
                    y: y as int,
                    width: width as int,
                    height: height as int,
                }),
            ));
        }
        Ok(())
    }

    /// Records an image placement.  The model target accepts every call.
    pub fn draw_image(&mut self, data: &Vec<u8>, x: u32, y: u32, width: u32, height: u32) -> (r:
        Result<(), Error>)
        ensures
            r is Ok,
            final(self).ops_model() == old(self).ops_model().push(
                (DrawOpModel::Image {
                    data: data@,
                    x: x as int,
                    y: y as int,
                    width: width as int,
                    height: height as int,
                }),
            ),
            final(self).width == old(self).width,
            final(self).height == old(self).height,
    {
        let ghost before = self.ops.deep_view();
        let buf = copy_vec(data);
        self.ops.push(DrawOp::Image { data: buf, x, y, width, height });
        proof {
            assert(self.ops.deep_view() =~= before.push(
                (DrawOpModel::Image {
                    data: data@,
                    x: x as int,
                    y: y as int,
                    width: width as int,
                    height: height as int,
                }),
            ));
        }
        Ok(())
    }

    /// Records a text draw.  The model target accepts every call.
    pub fn draw_text(
        &mut self,
        color: Rgba,
        x: u64,
        y: u32,
        font_size: u32,
        font: &Font,
        text: &Vec<char>,
    ) -> (r: Result<(), Error>)
        ensures
            r is Ok,
            final(self).ops_model() == old(self).ops_model().push(
                (DrawOpModel::Text {
                    color,
                    x: x as int,
                    y: y as int,
                    font_size: font_size as int,
                    font: font.ranges@,
                    text: text@,
                }),
            ),
            final(self).width == old(self).width,
            final(self).height == old(self).height,
    {
        let ghost before = self.ops.deep_view();
        let ranges = copy_vec(&font.ranges);
        let chars = copy_vec(text);
        self.ops.push(DrawOp::Text { color, x, y, font_size, font: ranges, text: chars });
        proof {
            assert(self.ops.deep_view() =~= before.push(
                (DrawOpModel::Text {
                    color,
                    x: x as int,
                    y: y as int,
                    font_size: font_size as int,
                    font: font.ranges@,
                    text: text@,
                }),
            ));
        }
        Ok(())
    }
}

} // verus!
