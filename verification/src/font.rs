use vstd::prelude::*;
use crate::Error;

verus! {

/// One inclusive range of Unicode code points that a font covers.
#[derive(Debug, Clone, Copy, PartialEq, Eq, Structural)]
pub struct CodeRange {
    pub first: u32,
    pub last: u32,
}

impl CodeRange {
    pub open spec fn spec_contains(self, cp: u32) -> bool {
        self.first <= cp && cp <= self.last
    }
}

/// A font, modeled by the set of code points it covers.  Font tables, glyph
/// outlines and metrics belong to the rasterization backend; resolution only
/// ever asks whether a font covers a character.
///
/// Font data, as handed to [`Font::try_from_vec`], is a sequence of eight-byte
/// records: the first and the last covered code point of one range, each four
/// bytes little-endian.
#[derive(Debug)]
pub struct Font {
    pub ranges: Vec<CodeRange>,
}

/// The `u32` written little-endian as the bytes `b0 b1 b2 b3`.
pub open spec fn u32_le(b0: u8, b1: u8, b2: u8, b3: u8) -> int {
    b0 + 256 * (b1 + 256 * (b2 + 256 * (b3 as int)))
}

/// The coverage ranges that a font-data byte sequence describes, assuming its
/// length is a multiple of eight.
pub open spec fn spec_ranges_of_bytes(data: Seq<u8>) -> Seq<CodeRange> {
    Seq::new(
        (data.len() / 8) as nat,
        |i: int|
            CodeRange {
                first: u32_le(data[8 * i], data[8 * i + 1], data[8 * i + 2], data[8 * i + 3]) as u32,
                last: u32_le(data[8 * i + 4], data[8 * i + 5], data[8 * i + 6], data[8 * i + 7]) as u32,
            },
    )
}

/// When font-data bytes are well formed: whole records, each with its bounds
/// in order.
pub open spec fn spec_font_data_ok(data: Seq<u8>) -> bool {
    &&& data.len() % 8 == 0
    &&& forall|i: int|
        0 <= i < spec_ranges_of_bytes(data).len() ==> (#[trigger] spec_ranges_of_bytes(
            data,
        )[i]).first <= spec_ranges_of_bytes(data)[i].last
}

impl Font {
    /// True when this font covers the character.
    pub open spec fn spec_covers(self, c: char) -> bool {
        exists|i: int|
            0 <= i < self.ranges@.len() && (#[trigger] self.ranges@[i]).spec_contains(c as u32)
    }

    /// Parses font data.  Returns `None` exactly on malformed bytes: a length
    /// that is no multiple of eight, or a range whose first code point lies
    /// after its last.
    pub fn try_from_vec(data: Vec<u8>) -> (r: Option<Font>)
        ensures
            spec_font_data_ok(data@) ==> match r {
                Some(f) => f.ranges@ == spec_ranges_of_bytes(data@),
                None => false,
            },
            !spec_font_data_ok(data@) ==> r is None,
    {
        if data.len() % 8 != 0 {
            return None;
        }
        let n = data.len() / 8;
        let mut ranges: Vec<CodeRange> = Vec::new();
        let mut i: usize = 0;
        while i < n
            invariant
                8 * n == data@.len(),
                8 * n <= usize::MAX,
                i <= n,
                ranges@ =~= spec_ranges_of_bytes(data@).take(i as int),
                forall|j: int| 0 <= j < i ==> (#[trigger] spec_ranges_of_bytes(data@)[j]).first
                    <= spec_ranges_of_bytes(data@)[j].last,
            decreases n - i,
        {
            let first = read_u32_le(&data, 8 * i);
            let last = read_u32_le(&data, 8 * i + 4);
            if first > last {
                proof {
                    assert(spec_ranges_of_bytes(data@)[i as int].first
                        > spec_ranges_of_bytes(data@)[i as int].last);
                    assert(!spec_font_data_ok(data@));
                }
                return None;
            }
            ranges.push(CodeRange { first, last });
            assert(ranges@ =~= spec_ranges_of_bytes(data@).take(i + 1));
            i += 1;
        }
        assert(ranges@ =~= spec_ranges_of_bytes(data@));
        Some(Font { ranges })
    }
}

/// Reads the little-endian `u32` at byte offset `at`.
fn read_u32_le(data: &Vec<u8>, at: usize) -> (r: u32)
    requires
        at + 4 <= data@.len(),
    ensures
        r == u32_le(data@[at as int], data@[at + 1], data@[at + 2], data@[at + 3]),
{
    let n = data.len();
    let b0 = data[at];
    let b1 = data[at + 1];
    let b2 = data[at + 2];
    let b3 = data[at + 3];
    (b0 as u32) + 256 * ((b1 as u32) + 256 * ((b2 as u32) + 256 * (b3 as u32)))
}

/// True exactly when `font` covers `ch`: whether some font source supplies a
/// glyph for a character is, in this model, coverage of its code point.
pub fn match_font_family(ch: char, font: &Font) -> (r: bool)
    ensures
        r == font.spec_covers(ch),
{
    let cp = ch as u32;
    let n = font.ranges.len();
    let mut i: usize = 0;
    while i < n
        invariant
            n == font.ranges@.len(),
            i <= n,
            cp == ch as u32,
            forall|j: int| 0 <= j < i ==> !(#[trigger] font.ranges@[j]).spec_contains(cp),
        decreases n - i,
    {
        let range = font.ranges[i];
        if range.first <= cp && cp <= range.last {
            proof {
                assert(font.ranges@[i as int].spec_contains(ch as u32));
            }
            return true;
        }
        i += 1;
    }
    false
}

/// Which slot of a fragment's or the caller's font list covered a character.
/// Slot lists currently hold one font, so the index is always zero; it is
/// kept for fragments that may one day carry several fonts.
#[derive(Debug, Clone, Copy, PartialEq, Eq, Structural)]
pub struct FontIndex(pub usize);

/// Which font source covered a sub-range of a fragment: the fragment's own
/// font, the caller-supplied default, or a fallback of the shared table,
/// recorded by handle.
#[derive(Debug, Clone, Copy, PartialEq, Eq, Structural)]
pub enum FontIndexStore {
    Child(FontIndex),
    Parent(FontIndex),
    Global(FontIndex),
}

/// The shared fallback-font table, read-only during resolution and rendering.
/// A handle handed out by [`FontContext::select_font_family`] is an index
/// into it.
#[derive(Debug)]
pub struct FontContext {
    pub fonts: Vec<Font>,
}

impl FontContext {
    /// The smallest index of a table font covering `c`, if any.
    pub open spec fn spec_select(fonts: Seq<Font>, c: char) -> Option<int>
        decreases fonts.len(),
    {
        if fonts.len() == 0 {
            None
        } else if fonts[0].spec_covers(c) {
            Some(0int)
        } else {
            match Self::spec_select(fonts.drop_first(), c) {
                Some(i) => Some(i + 1),
                None => None,
            }
        }
    }

    pub fn new() -> (r: FontContext)
        ensures
            r.fonts@.len() == 0,
    {
        FontContext { fonts: Vec::new() }
    }

    /// Loads one more fallback font into the table.
    pub fn push_font(&mut self, font: Font)
        ensures
            final(self).fonts@ == old(self).fonts@.push(font),
    {
        self.fonts.push(font);
    }

    /// Selects the first fallback font that covers `ch`; fallback exhaustion
    /// is a hard failure for that character.
    pub fn select_font_family(&self, ch: char) -> (r: Result<FontIndex, Error>)
        ensures
            match FontContext::spec_select(self.fonts@, ch) {
                Some(i) => r == Ok::<FontIndex, Error>(FontIndex(i as usize)),
                None => r == Err::<FontIndex, Error>(Error::NotFoundSpecifiedFontFamily),
            },
    {
        let n = self.fonts.len();
        let mut i: usize = 0;
        proof {
            assert(self.fonts@.skip(0) =~= self.fonts@);
        }
        while i < n
            invariant
                n == self.fonts@.len(),
                i <= n,
                forall|j: int| 0 <= j < i ==> !(#[trigger] self.fonts@[j]).spec_covers(ch),
                FontContext::spec_select(self.fonts@, ch) == match FontContext::spec_select(
                    self.fonts@.skip(i as int),
                    ch,
                ) {
                    Some(k) => Some(k + i),
                    None => None::<int>,
                },
            decreases n - i,
        {
            proof {
                assert(self.fonts@.skip(i as int)[0] == self.fonts@[i as int]);
            }
            if match_font_family(ch, &self.fonts[i]) {
                return Ok(FontIndex(i));
            }
            proof {
                assert(self.fonts@.skip(i as int).drop_first() =~= self.fonts@.skip(i + 1));
            }
            i += 1;
        }
        proof {
            assert(self.fonts@.skip(n as int).len() == 0);
        }
        Err(Error::NotFoundSpecifiedFontFamily)
    }

    /// Fetches the font behind a handle; `None` for a stale or foreign handle.
    pub fn borrow_font(&self, index: FontIndex) -> (r: Option<&Font>)
        ensures
            match r {
                Some(f) => index.0 < self.fonts@.len() && f == self.fonts@[index.0 as int],
                None => index.0 >= self.fonts@.len(),
            },
    {
        if index.0 < self.fonts.len() {
            Some(&self.fonts[index.0])
        } else {
            None
        }
    }
}

} // verus!
