use vstd::prelude::*;
use crate::context::{Context, DrawOpModel};
use crate::element::{elem_wf, Element, Img, Text};
use crate::font::{Font, FontContext};
use crate::geom::{Line, Rect};
use crate::style::{Style, WindowStyle};
use crate::textarea::{
    all_resolvable, frag_resolvable, frag_resolves_to, resolved_from, spec_concat_texts, TextArea,
};
use crate::Error;

verus! {

/// `image`'s error type, carried through unopened where decoding fails.
#[verifier::external_type_specification]
#[verifier::external_body]
pub struct ExImageError(image::ImageError);

/// The width and height that `image`'s decoder reads from a byte sequence:
/// `Some` exactly where the bytes decode as a supported image format.  The
/// decode depends on the bytes alone.
pub uninterp spec fn spec_decoded_dims(data: Seq<u8>) -> Option<(int, int)>;

/// Relies on image::load_from_memory: `Ok` exactly when the bytes decode as
/// a supported image format; the pair, named by [`spec_decoded_dims`], is
/// the decoded image's width and height.
#[verifier::external_body]
fn decode_image_dimensions(data: &[u8]) -> (r: Result<(u32, u32), image::ImageError>)
    ensures
        match spec_decoded_dims(data@) {
            Some(d) => match r {
                Ok(p) => p.0 as int == d.0 && p.1 as int == d.1,
                Err(_) => false,
            },
            None => r is Err,
        },
{
    match image::load_from_memory(data) {
        Ok(img) => Ok((img.width(), img.height())),
        Err(e) => Err(e),
    }
}

/// This struct writes text and images onto one surface.
/// Content is set with the `set_*` methods and painted in one render pass.
#[derive(Debug)]
pub struct OGImageWriter {
    pub context: Context,
    pub tree: Vec<Element>,
    pub window: WindowStyle,
    pub font_context: FontContext,
}

impl OGImageWriter {
    /// Every element slot of the tree holds well-formed content.
    pub open spec fn wf(self) -> bool {
        forall|i: int| 0 <= i < self.tree@.len() ==> elem_wf(#[trigger] self.tree@[i])
    }

    pub fn create_tree() -> (r: Vec<Element>)
        ensures
            r@.len() == 0,
    {
        Vec::with_capacity(2)
    }

    /// Sets up an empty writer over a fresh surface of the window's size,
    /// painting the window background first when one is set.
    pub fn new(window: WindowStyle) -> (r: Result<OGImageWriter, Error>)
        ensures
            match r {
                Ok(w) => {
                    &&& w.wf()
                    &&& w.tree@.len() == 0
                    &&& w.window == window
                    &&& w.font_context.fonts@.len() == 0
                    &&& w.context.width == window.width
                    &&& w.context.height == window.height
                    &&& w.context.ops_model() == (match window.background_color {
                        Some(c) => Seq::empty().push(
                            (DrawOpModel::Rect {
                                color: c,
                                x: 0,
                                y: 0,
                                width: window.width as int,
                                height: window.height as int,
                            }),
                        ),
                        None => Seq::<DrawOpModel>::empty(),
                    })
                },
                Err(_) => false,
            },
    {
        let mut context = Context::new(window.width, window.height);
        match window.background_color {
            Some(color) => {
                let res = context.draw_rect(color, 0, 0, window.width, window.height);
                match res {
                    Ok(()) => {},
                    Err(e) => {
                        return Err(e);
                    },
                }
            },
            None => {},
        }
        Ok(
            OGImageWriter {
                context,
                tree: OGImageWriter::create_tree(),
                window,
                font_context: FontContext::new(),
            },
        )
    }

    /// Sets up a writer whose surface holds a caller-supplied image; window
    /// width and height are taken from the decoded image, overriding the
    /// supplied ones.  Fails with `NotFoundContainerImage` exactly when the
    /// bytes hold no decodable image.
    pub fn from_data(window: WindowStyle, data: &[u8]) -> (r: Result<OGImageWriter, Error>)
        ensures
            match r {
                Ok(w) => {
                    &&& spec_decoded_dims(data@) is Some
                    &&& w.window.width as int == spec_decoded_dims(data@).unwrap().0
                    &&& w.window.height as int == spec_decoded_dims(data@).unwrap().1
                    &&& w.wf()
                    &&& w.tree@.len() == 0
                    &&& w.font_context.fonts@.len() == 0
                    &&& w.context.width == w.window.width
                    &&& w.context.height == w.window.height
                    &&& w.window.background_color == window.background_color
                    &&& w.context.ops_model() == Seq::empty().push(
                        (DrawOpModel::Image {
                            data: data@,
                            x: 0,
                            y: 0,
                            width: w.window.width as int,
                            height: w.window.height as int,
                        }),
                    )
                },
                Err(e) => {
                    &&& e == Error::NotFoundContainerImage
                    &&& spec_decoded_dims(data@) is None
                },
            },
    {
        let (width, height) = match decode_image_dimensions(data) {
            Ok(dims) => dims,
            Err(_) => {
                return Err(Error::NotFoundContainerImage);
            },
        };
        let buf = vstd::slice::slice_to_vec(data);
        let mut context = Context::new(width, height);
        match context.draw_image(&buf, 0, 0, width, height) {
            Ok(()) => {},
            Err(e) => {
                return Err(e);
            },
        }
        Ok(
            OGImageWriter {
                context,
                tree: OGImageWriter::create_tree(),
                window: WindowStyle { width, height, ..window },
                font_context: FontContext::new(),
            },
        )
    }

    /// Loads one more fallback font into the writer's shared font table.
    pub fn push_fallback_font(&mut self, font: Font)
        ensures
            final(self).font_context.fonts@ == old(self).font_context.fonts@.push(font),
            final(self).tree == old(self).tree,
            final(self).context == old(self).context,
            final(self).window == old(self).window,
            old(self).wf() ==> final(self).wf(),
    {
        self.font_context.push_font(font);
    }
}

} // verus!

verus! {

impl OGImageWriter {
    /// Parses the parent font, resolves the TextArea against it and the
    /// writer's fallback table, and stores the text element (lines still
    /// empty, to be supplied by the layout collaborator).  Fails with
    /// `InvalidFontBytes`, changing nothing, exactly on malformed font data;
    /// fails with `NotFoundSpecifiedFontFamily`, changing nothing, when some
    /// character of some fragment has no covering tier.
    fn process_text(&mut self, textarea: TextArea, style: Style, font: Vec<u8>) -> (r: Result<
        (),
        Error,
    >)
        requires
            textarea.wf(),
            forall|i: int| 0 <= i < textarea.0@.len() ==> (#[trigger] textarea.0@[i]).glyphs@.len() == 0,
        ensures
            final(self).window == old(self).window,
            final(self).context == old(self).context,
            final(self).font_context == old(self).font_context,
            old(self).wf() ==> final(self).wf(),
            match r {
                Ok(()) => {
                    &&& crate::font::spec_font_data_ok(font@)
                    &&& final(self).tree@.len() == old(self).tree@.len() + 1
                    &&& forall|i: int|
                        0 <= i < old(self).tree@.len() ==> final(self).tree@[i] == old(
                            self,
                        ).tree@[i]
                    &&& match final(self).tree@.last() {
                        Element::Text(Some(t)) => {
                            &&& t.style == style
                            &&& t.font.ranges@ == crate::font::spec_ranges_of_bytes(font@)
                            &&& t.lines@.len() == 0
                            &&& t.wf()
                            &&& t.textarea.0@.len() == textarea.0@.len()
                            &&& forall|i: int|
                                0 <= i < textarea.0@.len() ==> frag_resolvable(
                                    #[trigger] textarea.0@[i],
                                    t.font,
                                    old(self).font_context.fonts@,
                                ) && frag_resolves_to(
                                    textarea.0@[i],
                                    t.textarea.0@[i],
                                    t.font,
                                    old(self).font_context.fonts@,
                                )
                            &&& resolved_from(t.textarea, t.font, old(self).font_context.fonts@)
                        },
                        _ => false,
                    }
                },
                Err(e) => {
                    &&& *final(self) == *old(self)
                    &&& (e == Error::InvalidFontBytes <==> !crate::font::spec_font_data_ok(font@))
                    &&& (e == Error::InvalidFontBytes || e == Error::NotFoundSpecifiedFontFamily)
                    &&& (e == Error::NotFoundSpecifiedFontFamily ==> exists|f: Font|
                        (#[trigger] f.ranges)@ == crate::font::spec_ranges_of_bytes(font@)
                            && exists|k: int|
                            0 <= k < textarea.0@.len() && !frag_resolvable(
                                #[trigger] textarea.0@[k],
                                f,
                                old(self).font_context.fonts@,
                            ))
                },
            },
    {
        let font = match Font::try_from_vec(font) {
            Some(f) => f,
            None => {
                return Err(Error::InvalidFontBytes);
            },
        };
        let mut textarea = textarea;
        let ghost before = textarea.0@;
        match textarea.set_glyphs(&font, &self.font_context) {
            Ok(()) => {},
            Err(e) => {
                proof {
                    let k = choose|k: int|
                        crate::textarea::partial_resolved(
                            before,
                            textarea.0@,
                            k,
                            font,
                            self.font_context.fonts@,
                        );
                    assert(!frag_resolvable(before[k], font, self.font_context.fonts@));
                }
                return Err(e);
            },
        }
        let text_string = textarea.as_string();
        let text = chars_of(text_string.as_str());
        let ghost resolved = textarea.0@;
        let elm = Text { textarea, text, style, font, lines: Vec::new() };
        proof {
            assert(elm.wf()) by {
                assert forall|i: int| 0 <= i < resolved.len() implies (
                #[trigger] resolved[i]).text@ == before[i].text@ by {
                    assert(frag_resolves_to(
                        before[i],
                        resolved[i],
                        elm.font,
                        self.font_context.fonts@,
                    ));
                }
                crate::textarea::lemma_concat_texts_equal(before, resolved);
            }
            assert(resolved_from(elm.textarea, elm.font, self.font_context.fonts@)) by {
                assert forall|i: int| 0 <= i < resolved.len() implies (
                #[trigger] resolved[i]).glyphs.deep_view() == crate::textarea::spec_runs(
                    resolved[i].text@,
                    resolved[i].range.start as int,
                    resolved[i].font,
                    elm.font,
                    self.font_context.fonts@,
                ) by {
                    assert(frag_resolves_to(
                        before[i],
                        resolved[i],
                        elm.font,
                        self.font_context.fonts@,
                    ));
                    assert(before[i].glyphs@.len() == 0);
                    assert(before[i].glyphs.deep_view() =~= Seq::<
                        crate::glyph::GlyphModel,
                    >::empty());
                    assert(Seq::<crate::glyph::GlyphModel>::empty() + crate::textarea::spec_runs(
                        before[i].text@,
                        before[i].range.start as int,
                        before[i].font,
                        elm.font,
                        self.font_context.fonts@,
                    ) =~= crate::textarea::spec_runs(
                        before[i].text@,
                        before[i].range.start as int,
                        before[i].font,
                        elm.font,
                        self.font_context.fonts@,
                    ));
                }
            }
        }
        let ghost old_tree = self.tree@;
        self.tree.push(Element::Text(Some(elm)));
        proof {
            assert(self.tree@.last() == (Element::Text(Some(elm))));
        }
        Ok(())
    }

    /// Sets text to write, as a single unstyled fragment under the element
    /// style; the element acts like an inline block.
    pub fn set_text(&mut self, text: &str, style: Style, font: Vec<u8>) -> (r: Result<(), Error>)
        requires
            crate::textarea::text_bytes(text@) <= usize::MAX,
        ensures
            final(self).window == old(self).window,
            final(self).context == old(self).context,
            final(self).font_context == old(self).font_context,
            old(self).wf() ==> final(self).wf(),
            match r {
                Ok(()) => {
                    &&& crate::font::spec_font_data_ok(font@)
                    &&& final(self).tree@.len() == old(self).tree@.len() + 1
                    &&& forall|i: int|
                        0 <= i < old(self).tree@.len() ==> final(self).tree@[i] == old(
                            self,
                        ).tree@[i]
                    &&& match final(self).tree@.last() {
                        Element::Text(Some(t)) => {
                            &&& t.style == style
                            &&& t.font.ranges@ == crate::font::spec_ranges_of_bytes(font@)
                            &&& t.lines@.len() == 0
                            &&& t.wf()
                            &&& t.textarea.0@.len() == 1
                            &&& t.textarea.0@[0].text@ == text@
                            &&& t.textarea.0@[0].style is None
                            &&& t.textarea.0@[0].font is None
                            &&& all_resolvable(
                                text@,
                                None,
                                t.font,
                                old(self).font_context.fonts@,
                            )
                            &&& resolved_from(t.textarea, t.font, old(self).font_context.fonts@)
                        },
                        _ => false,
                    }
                },
                Err(e) => {
                    &&& *final(self) == *old(self)
                    &&& (e == Error::InvalidFontBytes <==> !crate::font::spec_font_data_ok(font@))
                    &&& (e == Error::InvalidFontBytes || e == Error::NotFoundSpecifiedFontFamily)
                    &&& (e == Error::NotFoundSpecifiedFontFamily ==> exists|f: Font|
                        (#[trigger] f.ranges)@ == crate::font::spec_ranges_of_bytes(font@)
                            && !all_resolvable(text@, None, f, old(self).font_context.fonts@))
                },
            },
    {
        let mut textarea = TextArea::new();
        textarea.push_text(text);
        proof {
            assert(textarea.0@[0].text@ == text@);
        }
        let ghost tav = textarea.0@;
        let ghost fonts0 = self.font_context.fonts@;
        let r = self.process_text(textarea, style, font);
        proof {
            match r {
                Ok(()) => {},
                Err(e) => {
                    if e == Error::NotFoundSpecifiedFontFamily {
                        let f = choose|f: Font|
                            (#[trigger] f.ranges)@ == crate::font::spec_ranges_of_bytes(font@)
                                && exists|k: int|
                                0 <= k < tav.len() && !frag_resolvable(
                                    #[trigger] tav[k],
                                    f,
                                    fonts0,
                                );
                        let k = choose|k: int|
                            0 <= k < tav.len() && !frag_resolvable(#[trigger] tav[k], f, fonts0);
                        assert(k == 0);
                        assert(tav[0].text@ == text@ && tav[0].font is None);
                        assert(!all_resolvable(text@, None, f, fonts0));
                    }
                },
            }
        }
        r
    }
}

/// The characters of a string, in order.
pub fn chars_of(s: &str) -> (r: Vec<char>)
    ensures
        r@ == s@,
{
    let n = s.unicode_len();
    let mut r: Vec<char> = Vec::new();
    let mut i: usize = 0;
    while i < n
        invariant
            n == s@.len(),
            i <= n,
            r@ =~= s@.take(i as int),
        decreases n - i,
    {
        r.push(s.get_char(i));
        proof {
            assert(r@ =~= s@.take(i + 1));
        }
        i += 1;
    }
    proof {
        assert(s@.take(n as int) =~= s@);
    }
    r
}

} // verus!

verus! {

impl OGImageWriter {
    /// Stores a TextArea, resolved against the parsed font and the writer's
    /// fallback table; the element's lines are supplied later by the layout
    /// collaborator.  The TextArea must not have been resolved before.
    pub fn set_textarea(&mut self, textarea: TextArea, style: Style, font: Vec<u8>) -> (r: Result<
        (),
        Error,
    >)
        requires
            textarea.wf(),
            forall|i: int| 0 <= i < textarea.0@.len() ==> (#[trigger] textarea.0@[i]).glyphs@.len() == 0,
        ensures
            final(self).window == old(self).window,
            final(self).context == old(self).context,
            final(self).font_context == old(self).font_context,
            old(self).wf() ==> final(self).wf(),
            match r {
                Ok(()) => {
                    &&& crate::font::spec_font_data_ok(font@)
                    &&& final(self).tree@.len() == old(self).tree@.len() + 1
                    &&& forall|i: int|
                        0 <= i < old(self).tree@.len() ==> final(self).tree@[i] == old(
                            self,
                        ).tree@[i]
                    &&& match final(self).tree@.last() {
                        Element::Text(Some(t)) => {
                            &&& t.style == style
                            &&& t.font.ranges@ == crate::font::spec_ranges_of_bytes(font@)
                            &&& t.lines@.len() == 0
                            &&& t.wf()
                            &&& t.textarea.0@.len() == textarea.0@.len()
                            &&& forall|i: int|
                                0 <= i < textarea.0@.len() ==> frag_resolvable(
                                    #[trigger] textarea.0@[i],
                                    t.font,
                                    old(self).font_context.fonts@,
                                ) && frag_resolves_to(
                                    textarea.0@[i],
                                    t.textarea.0@[i],
                                    t.font,
                                    old(self).font_context.fonts@,
                                )
                            &&& resolved_from(t.textarea, t.font, old(self).font_context.fonts@)
                        },
                        _ => false,
                    }
                },
                Err(e) => {
                    &&& *final(self) == *old(self)
                    &&& (e == Error::InvalidFontBytes <==> !crate::font::spec_font_data_ok(font@))
                    &&& (e == Error::InvalidFontBytes || e == Error::NotFoundSpecifiedFontFamily)
                    &&& (e == Error::NotFoundSpecifiedFontFamily ==> exists|f: Font|
                        (#[trigger] f.ranges)@ == crate::font::spec_ranges_of_bytes(font@)
                            && exists|k: int|
                            0 <= k < textarea.0@.len() && !frag_resolvable(
                                #[trigger] textarea.0@[k],
                                f,
                                old(self).font_context.fonts@,
                            ))
                },
            },
    {
        self.process_text(textarea, style, font)
    }

    /// Stores an image element by source path; the file itself is read by
    /// the embedding application when it rasterizes the recorded calls.
    pub fn set_img(&mut self, src: &str, width: u32, height: u32, style: Style) -> (r: Result<
        (),
        Error,
    >)
        ensures
            r is Ok,
            final(self).window == old(self).window,
            final(self).context == old(self).context,
            final(self).font_context == old(self).font_context,
            final(self).tree@.len() == old(self).tree@.len() + 1,
            forall|i: int| 0 <= i < old(self).tree@.len() ==> final(self).tree@[i] == old(self).tree@[i],
            match final(self).tree@.last() {
                Element::Img(Some(img)) => {
                    &&& (match img.src {
                        Some(s) => s@ == src@,
                        None => false,
                    })
                    &&& img.data@.len() == 0
                    &&& img.width == width
                    &&& img.height == height
                    &&& img.rect == (Rect { x: 0, y: 0, width, height })
                    &&& img.style == style
                },
                _ => false,
            },
            old(self).wf() ==> final(self).wf(),
    {
        let img = Img {
            data: Vec::new(),
            src: Some(src.to_owned()),
            width,
            height,
            rect: Rect { x: 0, y: 0, width, height },
            style,
        };
        self.tree.push(Element::Img(Some(img)));
        Ok(())
    }

    /// Stores an image element from caller-supplied encoded bytes.  The
    /// decode collaborator validates the bytes; succeeds exactly when they
    /// hold a decodable image, else its error is returned unopened.
    pub fn set_img_with_data(&mut self, data: &[u8], width: u32, height: u32, style: Style) -> (r:
        Result<(), image::ImageError>)
        ensures
            final(self).window == old(self).window,
            final(self).context == old(self).context,
            final(self).font_context == old(self).font_context,
            old(self).wf() ==> final(self).wf(),
            match r {
                Ok(()) => {
                    &&& spec_decoded_dims(data@) is Some
                    &&& final(self).tree@.len() == old(self).tree@.len() + 1
                    &&& forall|i: int|
                        0 <= i < old(self).tree@.len() ==> final(self).tree@[i] == old(
                            self,
                        ).tree@[i]
                    &&& match final(self).tree@.last() {
                        Element::Img(Some(img)) => {
                            &&& img.data@ == data@
                            &&& img.src is None
                            &&& img.width == width
                            &&& img.height == height
                            &&& img.rect == (Rect { x: 0, y: 0, width, height })
                            &&& img.style == style
                        },
                        _ => false,
                    }
                },
                Err(_) => {
                    &&& spec_decoded_dims(data@) is None
                    &&& *final(self) == *old(self)
                },
            },
    {
        match decode_image_dimensions(data) {
            Ok(_) => {},
            Err(e) => {
                return Err(e);
            },
        }
        let buf = vstd::slice::slice_to_vec(data);
        let img = Img {
            data: buf,
            src: None,
            width,
            height,
            rect: Rect { x: 0, y: 0, width, height },
            style,
        };
        self.tree.push(Element::Img(Some(img)));
        Ok(())
    }

    /// Hands the layout collaborator's lines to the most recently stored
    /// text element.  Fails with `NullElement`, changing nothing, when no
    /// element exists or the last one is no text element.
    pub fn set_lines(&mut self, lines: Vec<Line>) -> (r: Result<(), Error>)
        ensures
            final(self).window == old(self).window,
            final(self).context == old(self).context,
            final(self).font_context == old(self).font_context,
            old(self).wf() ==> final(self).wf(),
            match r {
                Ok(()) => {
                    &&& final(self).tree@.len() == old(self).tree@.len()
                    &&& forall|i: int|
                        0 <= i < old(self).tree@.len() - 1 ==> final(self).tree@[i] == old(
                            self,
                        ).tree@[i]
                    &&& match (old(self).tree@.last(), final(self).tree@.last()) {
                        (Element::Text(Some(t0)), Element::Text(Some(t1))) => {
                            &&& t1.lines@ == lines@
                            &&& t1.textarea == t0.textarea
                            &&& t1.text == t0.text
                            &&& t1.style == t0.style
                            &&& t1.font == t0.font
                        },
                        _ => false,
                    }
                },
                Err(e) => {
                    &&& e == Error::NullElement
                    &&& final(self).tree@ == old(self).tree@
                },
            },
    {
        let ghost before = self.tree@;
        match self.tree.pop() {
            None => Err(Error::NullElement),
            Some(Element::Text(Some(t))) => {
                let ghost t0 = t;
                let t = Text { lines, ..t };
                let ghost t1 = t;
                self.tree.push(Element::Text(Some(t)));
                proof {
                    assert(before.last() == (Element::Text(Some(t0))));
                    assert(self.tree@.last() == (Element::Text(Some(t1))));
                    assert(forall|i: int|
                        0 <= i < before.len() - 1 ==> #[trigger] self.tree@[i] == before[i]);
                    if old(self).wf() {
                        assert(elem_wf(before.last()));
                        assert(t1.wf());
                        assert forall|i: int| 0 <= i < self.tree@.len() implies elem_wf(
                            #[trigger] self.tree@[i],
                        ) by {
                            if i < self.tree@.len() - 1 {
                                assert(self.tree@[i] == before[i]);
                            }
                        }
                    }
                }
                Ok(())
            },
            Some(other) => {
                self.tree.push(other);
                proof {
                    assert(self.tree@ =~= before);
                }
                Err(Error::NullElement)
            },
        }
    }
}

} // verus!

verus! {

/// The characters of `s` (starting at byte `pos`) that lie fully inside the
/// line's byte range `[ls, le)`, each with its byte offset.
pub open spec fn spec_line_items(s: Seq<char>, pos: int, ls: int, le: int) -> Seq<(char, int)>
    decreases s.len(),
{
    if s.len() == 0 {
        Seq::empty()
    } else {
        let w = crate::textarea::char_width(s[0]);
        let rest = spec_line_items(s.drop_first(), pos + w, ls, le);
        if ls <= pos && pos + w <= le {
            seq![(s[0], pos)] + rest
        } else {
            rest
        }
    }
}

/// The style a fragment is drawn with: its own, else the line's default.
pub open spec fn spec_style_of(frags: Seq<crate::textarea::SplitText>, i: int, default: Style) -> Style {
    match frags[i].style {
        Some(s) => s,
        None => default,
    }
}

/// The coverage of the font a fragment is drawn with: its own, else the
/// line's default.
pub open spec fn spec_font_ranges_of(
    frags: Seq<crate::textarea::SplitText>,
    i: int,
    default: Font,
) -> Seq<crate::font::CodeRange> {
    match frags[i].font {
        Some(f) => f.ranges@,
        None => default.ranges@,
    }
}

/// The draw call that flushes one accumulated group of fragment `cur`'s
/// characters at horizontal offset `x` within the line's rectangle.
pub open spec fn spec_op(
    frags: Seq<crate::textarea::SplitText>,
    cur: int,
    group: Seq<char>,
    x: int,
    rect: Rect,
    dstyle: Style,
    dfont: Font,
) -> DrawOpModel {
    DrawOpModel::Text {
        color: spec_style_of(frags, cur, dstyle).color,
        x: crate::context::spec_sat_add(rect.x as int, x),
        y: rect.y as int,
        font_size: spec_style_of(frags, cur, dstyle).font_size as int,
        font: spec_font_ranges_of(frags, cur, dfont),
        text: group,
    }
}

/// The draw calls of a line with an open group: characters of the fragment
/// currently accumulated extend the group; a character of another fragment
/// (or past the end) flushes it, advancing `x` by the group's measured
/// width.  `None` when some character's byte range lies in no fragment.
pub open spec fn spec_plan_open(
    items: Seq<(char, int)>,
    frags: Seq<crate::textarea::SplitText>,
    cur: int,
    group: Seq<char>,
    x: int,
    rect: Rect,
    dstyle: Style,
    dfont: Font,
) -> Option<Seq<DrawOpModel>>
    decreases items.len(),
{
    if items.len() == 0 {
        Some(seq![spec_op(frags, cur, group, x, rect, dstyle, dfont)])
    } else {
        match crate::textarea::spec_frag_locate(
            frags,
            items[0].1,
            items[0].1 + crate::textarea::char_width(items[0].0),
        ) {
            None => None,
            Some(f) => if f == cur {
                spec_plan_open(
                    items.drop_first(),
                    frags,
                    cur,
                    group.push(items[0].0),
                    x,
                    rect,
                    dstyle,
                    dfont,
                )
            } else {
                let x2 = crate::context::spec_sat_add(
                    x,
                    crate::context::spec_text_width(
                        spec_style_of(frags, cur, dstyle).font_size,
                        group.len() as int,
                    ),
                );
                match spec_plan_open(
                    items.drop_first(),
                    frags,
                    f,
                    seq![items[0].0],
                    x2,
                    rect,
                    dstyle,
                    dfont,
                ) {
                    Some(rest) => Some(
                        seq![spec_op(frags, cur, group, x, rect, dstyle, dfont)] + rest,
                    ),
                    None => None,
                }
            },
        }
    }
}

/// The draw calls of one line: its characters grouped maximally by owning
/// fragment, one call per group, left to right.  `None` when a character's
/// byte range lies in no fragment.
pub open spec fn spec_line_plan(
    items: Seq<(char, int)>,
    frags: Seq<crate::textarea::SplitText>,
    rect: Rect,
    dstyle: Style,
    dfont: Font,
) -> Option<Seq<DrawOpModel>> {
    if items.len() == 0 {
        Some(Seq::empty())
    } else {
        match crate::textarea::spec_frag_locate(
            frags,
            items[0].1,
            items[0].1 + crate::textarea::char_width(items[0].0),
        ) {
            None => None,
            Some(f) => spec_plan_open(
                items.drop_first(),
                frags,
                f,
                seq![items[0].0],
                0,
                rect,
                dstyle,
                dfont,
            ),
        }
    }
}

/// The draw calls of a text element: its lines in order.
pub open spec fn spec_text_plan(
    lines: Seq<Line>,
    text: Seq<char>,
    frags: Seq<crate::textarea::SplitText>,
    dstyle: Style,
    dfont: Font,
) -> Option<Seq<DrawOpModel>>
    decreases lines.len(),
{
    if lines.len() == 0 {
        Some(Seq::empty())
    } else {
        match spec_line_plan(
            spec_line_items(text, 0, lines[0].range.start as int, lines[0].range.end as int),
            frags,
            lines[0].rect,
            dstyle,
            dfont,
        ) {
            None => None,
            Some(p) => match spec_text_plan(lines.drop_first(), text, frags, dstyle, dfont) {
                Some(rest) => Some(p + rest),
                None => None,
            },
        }
    }
}

/// The draw calls of one element.
pub open spec fn spec_elem_plan(e: Element) -> Option<Seq<DrawOpModel>> {
    match e {
        Element::Img(img) => match img {
            Some(img) => Some(
                seq![
                    (DrawOpModel::Image {
                        data: img.data@,
                        x: img.rect.x as int,
                        y: img.rect.y as int,
                        width: img.width as int,
                        height: img.height as int,
                    }),
                ],
            ),
            None => None,
        },
        Element::Text(t) => match t {
            Some(t) => spec_text_plan(t.lines@, t.text@, t.textarea.0@, t.style, t.font),
            None => None,
        },
    }
}

/// The draw calls of the whole tree, elements popped back to front.
pub open spec fn spec_paint_plan(tree: Seq<Element>) -> Option<Seq<DrawOpModel>>
    decreases tree.len(),
{
    if tree.len() == 0 {
        Some(Seq::empty())
    } else {
        match spec_elem_plan(tree.last()) {
            None => None,
            Some(p) => match spec_paint_plan(tree.drop_last()) {
                Some(rest) => Some(p + rest),
                None => None,
            },
        }
    }
}

} // verus!

verus! {

/// `(char, usize)` items as their mathematical values.
pub open spec fn items_view(v: Seq<(char, usize)>) -> Seq<(char, int)> {
    v.map_values(|p: (char, usize)| (p.0, p.1 as int))
}

/// Collects the characters of `text` lying fully inside the line's byte
/// range, each with its byte offset.
fn collect_line_items(text: &Vec<char>, line: Line) -> (r: Vec<(char, usize)>)
    requires
        text_bytes_fits(text@),
    ensures
        items_view(r@) == spec_line_items(
            text@,
            0,
            line.range.start as int,
            line.range.end as int,
        ),
        forall|k: int|
            0 <= k < r@.len() ==> line.range.start <= (#[trigger] r@[k]).1 && r@[k].1
                + crate::textarea::char_width(r@[k].0) <= line.range.end,
{
    let ghost s = text@;
    let ghost ls = line.range.start as int;
    let ghost le = line.range.end as int;
    let n = text.len();
    let mut items: Vec<(char, usize)> = Vec::new();
    let mut off: usize = 0;
    let mut i: usize = 0;
    proof {
        assert(s.skip(0) =~= s);
        assert(items_view(items@) =~= Seq::<(char, int)>::empty());
        assert(items_view(items@) + spec_line_items(s, 0, ls, le) =~= spec_line_items(
            s,
            0,
            ls,
            le,
        ));
    }
    while i < n
        invariant
            n == s.len(),
            i <= n,
            s == text@,
            ls == line.range.start as int,
            le == line.range.end as int,
            text_bytes_fits(s),
            off as int == crate::textarea::text_bytes(s.take(i as int)),
            spec_line_items(s, 0, ls, le) == items_view(items@) + spec_line_items(
                s.skip(i as int),
                off as int,
                ls,
                le,
            ),
            forall|k: int|
                0 <= k < items@.len() ==> line.range.start <= (#[trigger] items@[k]).1
                    && items@[k].1 + crate::textarea::char_width(items@[k].0) <= line.range.end,
        decreases n - i,
    {
        let ghost gi = i as int;
        let c = text[i];
        let w = crate::textarea::char_utf8_width(c);
        proof {
            assert(s.skip(gi)[0] == s[gi]);
            crate::textarea::lemma_text_bytes_take_succ(s, gi);
            crate::textarea::lemma_text_bytes_split(s, gi + 1);
            crate::textarea::lemma_text_bytes_nonneg(s.skip(gi + 1));
            assert(s.skip(gi).drop_first() =~= s.skip(gi + 1));
        }
        if line.range.start <= off && off + w <= line.range.end {
            let ghost before = items@;
            items.push((c, off));
            proof {
                assert(items_view(items@) =~= items_view(before).push((c, off as int)));
                assert(items_view(before) + (seq![(s[gi], off as int)] + spec_line_items(
                    s.skip(gi + 1),
                    off + w,
                    ls,
                    le,
                )) =~= items_view(items@) + spec_line_items(s.skip(gi + 1), off + w, ls, le));
            }
        }
        off = off + w;
        i += 1;
    }
    proof {
        assert(s.skip(n as int).len() == 0);
        assert(items_view(items@) + Seq::<(char, int)>::empty() =~= items_view(items@));
    }
    items
}

impl OGImageWriter {
    /// Flushes one accumulated group: draws it with the owning fragment's
    /// style and font (the element's defaults where absent) at horizontal
    /// offset `x` in `rect`, and returns the group's measured width.
    fn flush_group(&mut self, elm: &Text, cur: usize, group: &Vec<char>, x: u64, rect: Rect) -> (adv: u64)
        requires
            cur < elm.textarea.0@.len(),
        ensures
            final(self).tree == old(self).tree,
            final(self).window == old(self).window,
            final(self).font_context == old(self).font_context,
            final(self).context.width == old(self).context.width,
            final(self).context.height == old(self).context.height,
            final(self).context.ops_model() == old(self).context.ops_model().push(
                spec_op(elm.textarea.0@, cur as int, group@, x as int, rect, elm.style, elm.font),
            ),
            adv == crate::context::spec_text_width(
                spec_style_of(elm.textarea.0@, cur as int, elm.style).font_size,
                group@.len() as int,
            ),
    {
        let st = match &elm.textarea.0[cur].style {
            Some(s2) => *s2,
            None => elm.style,
        };
        let sx = crate::context::sat_add_u64(rect.x as u64, x);
        let res = match &elm.textarea.0[cur].font {
            Some(fref) => self.context.draw_text(st.color, sx, rect.y, st.font_size, fref, group),
            None => self.context.draw_text(st.color, sx, rect.y, st.font_size, &elm.font, group),
        };
        match res {
            Ok(()) => {},
            Err(_) => {
                proof {
                    assert(false);
                }
            },
        }
        let fm = match &elm.textarea.0[cur].font {
            Some(fref) => self.context.text_extents(group, st.font_size, fref),
            None => self.context.text_extents(group, st.font_size, &elm.font),
        };
        fm.width
    }
}

impl OGImageWriter {
    /// Draws one line: walks its characters in order, accumulates maximal
    /// groups of one owning fragment, and issues one draw call per group at
    /// the cumulative measured offset.  Aborts with `OutOfRangeText`, leaving
    /// already-issued calls on the surface, exactly when a character's byte
    /// range lies in no fragment.
    #[verifier::rlimit(100)]
    #[verifier::spinoff_prover]
    fn paint_text_line(&mut self, elm: &Text, line: Line) -> (r: Result<(), Error>)
        requires
            elm.wf(),
        ensures
            final(self).tree == old(self).tree,
            final(self).window == old(self).window,
            final(self).font_context == old(self).font_context,
            final(self).context.width == old(self).context.width,
            final(self).context.height == old(self).context.height,
            ({
                let items = spec_line_items(
                    elm.text@,
                    0,
                    line.range.start as int,
                    line.range.end as int,
                );
                match r {
                    Ok(()) => {
                        &&& spec_line_plan(
                            items,
                            elm.textarea.0@,
                            line.rect,
                            elm.style,
                            elm.font,
                        ).is_some()
                        &&& final(self).context.ops_model() == old(self).context.ops_model()
                            + spec_line_plan(
                            items,
                            elm.textarea.0@,
                            line.rect,
                            elm.style,
                            elm.font,
                        ).unwrap()
                    },
                    Err(e) => {
                        &&& e == Error::OutOfRangeText
                        &&& spec_line_plan(
                            items,
                            elm.textarea.0@,
                            line.rect,
                            elm.style,
                            elm.font,
                        ) is None
                        &&& old(self).context.ops_model().is_prefix_of(
                            final(self).context.ops_model(),
                        )
                    },
                }
            }),
    {
        let ghost s = elm.text@;
        let ghost ls = line.range.start as int;
        let ghost le = line.range.end as int;
        let ghost frags = elm.textarea.0@;
        proof {
            crate::element::lemma_text_elm_total(*elm);
        }
        let items = collect_line_items(&elm.text, line);
        let nf = elm.textarea.0.len();
        proof {
            assert(frags.len() == nf as int);
        }
        let ghost iv = items_view(items@);
        let ghost ops0 = self.context.ops_model();
        let n_items = items.len();
        if n_items == 0 {
            proof {
                assert(self.context.ops_model() =~= ops0 + Seq::<DrawOpModel>::empty());
            }
            return Ok(());
        }
        proof {
            assert(iv[0] == (items@[0].0, items@[0].1 as int));
        }
        let w0 = crate::textarea::char_utf8_width(items[0].0);
        let first_end = items[0].1 + w0;
        let mut cur: usize = match elm.textarea.get_split_text_from_char_range(
            crate::geom::ByteRange { start: items[0].1, end: first_end },
        ) {
            Some(f) => f,
            None => {
                proof {
                    assert(ops0.is_prefix_of(self.context.ops_model()));
                    assert(first_end as int == iv[0].1 + crate::textarea::char_width(iv[0].0));
                    assert(spec_line_plan(iv, frags, line.rect, elm.style, elm.font) is None);
                }
                return Err(Error::OutOfRangeText);
            },
        };
        proof {
            crate::textarea::lemma_frag_locate_bounds(frags, iv[0].1, iv[0].1
                + crate::textarea::char_width(iv[0].0));
        }
        let mut group: Vec<char> = Vec::new();
        group.push(items[0].0);
        let mut x: u64 = 0;
        let mut j: usize = 1;
        proof {
            assert(group@ =~= seq![iv[0].0]);
            assert(iv.drop_first() =~= iv.skip(1));
            assert(ops0.skip(ops0.len() as int) =~= Seq::<DrawOpModel>::empty());
            assert(first_end as int == iv[0].1 + crate::textarea::char_width(iv[0].0));
            let po = spec_plan_open(
                iv.skip(1),
                frags,
                cur as int,
                group@,
                0,
                line.rect,
                elm.style,
                elm.font,
            );
            match po {
                Some(rest) => {
                    assert(Seq::<DrawOpModel>::empty() + rest =~= rest);
                },
                None => {},
            }
        }
        while j < n_items
            invariant
                elm.wf(),
                s == elm.text@,
                frags == elm.textarea.0@,
                n_items == items@.len(),
                iv == items_view(items@),
                iv == spec_line_items(s, 0, ls, le),
                iv.len() == items@.len(),
                1 <= j <= n_items,
                cur < frags.len(),
                frags.len() <= usize::MAX,
                group@.len() >= 1,
                forall|k: int|
                    0 <= k < items@.len() ==> line.range.start <= (#[trigger] items@[k]).1
                        && items@[k].1 + crate::textarea::char_width(items@[k].0)
                        <= line.range.end,
                ls == line.range.start as int,
                le == line.range.end as int,
                self.tree == old(self).tree,
                self.window == old(self).window,
                self.font_context == old(self).font_context,
                self.context.width == old(self).context.width,
                self.context.height == old(self).context.height,
                ops0 == old(self).context.ops_model(),
                ops0.is_prefix_of(self.context.ops_model()),
                spec_line_plan(iv, frags, line.rect, elm.style, elm.font) == match spec_plan_open(
                    iv.skip(j as int),
                    frags,
                    cur as int,
                    group@,
                    x as int,
                    line.rect,
                    elm.style,
                    elm.font,
                ) {
                    Some(rest) => Some(
                        self.context.ops_model().skip(ops0.len() as int) + rest,
                    ),
                    None => None::<Seq<DrawOpModel>>,
                },
            decreases n_items - j,
        {
            let ghost gj = j as int;
            let c = items[j].0;
            let b = items[j].1;
            let w = crate::textarea::char_utf8_width(c);
            proof {
                assert(iv.skip(gj)[0] == iv[gj]);
                assert(iv[gj] == (items@[gj].0, items@[gj].1 as int));
                assert(iv.skip(gj).drop_first() =~= iv.skip(gj + 1));
            }
            let e = b + w;
            match elm.textarea.get_split_text_from_char_range(
                crate::geom::ByteRange { start: b, end: e },
            ) {
                None => {
                    proof {
                        assert(e as int == iv[gj].1 + crate::textarea::char_width(iv[gj].0));
                        assert(spec_plan_open(
                            iv.skip(gj),
                            frags,
                            cur as int,
                            group@,
                            x as int,
                            line.rect,
                            elm.style,
                            elm.font,
                        ) is None);
                    }
                    return Err(Error::OutOfRangeText);
                },
                Some(f) => {
                    proof {
                        crate::textarea::lemma_frag_locate_bounds(frags, iv[gj].1, iv[gj].1
                            + crate::textarea::char_width(iv[gj].0));
                    }
                    if f == cur {
                        let ghost old_group2 = group@;
                        group.push(c);
                        proof {
                            assert(e as int == iv[gj].1 + crate::textarea::char_width(iv[gj].0));
                            assert(group@ =~= old_group2.push(iv[gj].0));
                            assert(spec_plan_open(
                                iv.skip(gj),
                                frags,
                                cur as int,
                                old_group2,
                                x as int,
                                line.rect,
                                elm.style,
                                elm.font,
                            ) == spec_plan_open(
                                iv.skip(gj + 1),
                                frags,
                                cur as int,
                                group@,
                                x as int,
                                line.rect,
                                elm.style,
                                elm.font,
                            ));
                        }
                    } else {
                        let ghost mid = self.context.ops_model();
                        let ghost gspec = spec_op(
                            frags,
                            cur as int,
                            group@,
                            x as int,
                            line.rect,
                            elm.style,
                            elm.font,
                        );
                        let adv = self.flush_group(elm, cur, &group, x, line.rect);
                        proof {
                            assert(self.context.ops_model() == mid.push(gspec));
                            assert(ops0.is_prefix_of(self.context.ops_model())) by {
                                assert(self.context.ops_model().take(ops0.len() as int)
                                    =~= mid.take(ops0.len() as int));
                            }
                            assert(self.context.ops_model().skip(ops0.len() as int) =~= mid.skip(
                                ops0.len() as int,
                            ).push(gspec));
                        }
                        let ghost old_x = x as int;
                        let ghost old_group = group@;
                        let ghost old_cur = cur as int;
                        x = crate::context::sat_add_u64(x, adv);
                        let mut g2: Vec<char> = Vec::new();
                        g2.push(c);
                        group = g2;
                        cur = f;
                        proof {
                            assert(e as int == iv[gj].1 + crate::textarea::char_width(iv[gj].0));
                            assert(group@ =~= seq![iv[gj].0]);
                            assert(spec_plan_open(
                                iv.skip(gj),
                                frags,
                                old_cur,
                                old_group,
                                old_x,
                                line.rect,
                                elm.style,
                                elm.font,
                            ) == (match spec_plan_open(
                                iv.skip(gj + 1),
                                frags,
                                f as int,
                                seq![iv[gj].0],
                                x as int,
                                line.rect,
                                elm.style,
                                elm.font,
                            ) {
                                Some(rest) => Some(seq![gspec] + rest),
                                None => None::<Seq<DrawOpModel>>,
                            }));
                            let rest0 = spec_plan_open(
                                iv.skip(gj + 1),
                                frags,
                                cur as int,
                                group@,
                                x as int,
                                line.rect,
                                elm.style,
                                elm.font,
                            );
                            match rest0 {
                                Some(rest) => {
                                    assert((mid.skip(ops0.len() as int).push(gspec)) + rest
                                        =~= mid.skip(ops0.len() as int) + (seq![gspec] + rest));
                                },
                                None => {},
                            }
                        }
                    }
                },
            }
            j += 1;
        }
        proof {
            assert(iv.skip(n_items as int).len() == 0);
        }
        let ghost mid = self.context.ops_model();
        let ghost gspec = spec_op(
            frags,
            cur as int,
            group@,
            x as int,
            line.rect,
            elm.style,
            elm.font,
        );
        let _ = self.flush_group(elm, cur, &group, x, line.rect);
        proof {
            assert(self.context.ops_model() == mid.push(gspec));
            assert(self.context.ops_model().skip(ops0.len() as int) =~= mid.skip(
                ops0.len() as int,
            ).push(gspec));
            assert(mid.skip(ops0.len() as int).push(gspec) =~= mid.skip(ops0.len() as int)
                + seq![gspec]);
            assert(ops0 + self.context.ops_model().skip(ops0.len() as int) =~= self.context.ops_model());
        }
        Ok(())
    }
}

/// The byte length of a text fits the machine.
pub open spec fn text_bytes_fits(s: Seq<char>) -> bool {
    crate::textarea::text_bytes(s) <= usize::MAX
}

} // verus!

verus! {

/// First of three sequences is a prefix of the last when it prefixes the
/// middle one and that prefixes the last.
pub proof fn lemma_prefix_trans(a: Seq<DrawOpModel>, b: Seq<DrawOpModel>, c: Seq<DrawOpModel>)
    requires
        a.is_prefix_of(b),
        b.is_prefix_of(c),
    ensures
        a.is_prefix_of(c),
{
    assert(a =~= c.take(a.len() as int));
}

impl OGImageWriter {
    /// Places one image element on the surface.
    fn paint_img(&mut self, img: Img) -> (r: Result<(), Error>)
        ensures
            r is Ok,
            final(self).tree == old(self).tree,
            final(self).window == old(self).window,
            final(self).font_context == old(self).font_context,
            final(self).context.width == old(self).context.width,
            final(self).context.height == old(self).context.height,
            final(self).context.ops_model() == old(self).context.ops_model().push(
                (DrawOpModel::Image {
                    data: img.data@,
                    x: img.rect.x as int,
                    y: img.rect.y as int,
                    width: img.width as int,
                    height: img.height as int,
                }),
            ),
    {
        self.context.draw_image(&img.data, img.rect.x, img.rect.y, img.width, img.height)
    }

    /// Draws one text element: its lines in top-to-bottom order.  Aborts at
    /// the first line holding a character whose byte range lies in no
    /// fragment; calls already issued stay on the surface.
    fn paint_text(&mut self, text_elm: Text) -> (r: Result<(), Error>)
        requires
            text_elm.wf(),
        ensures
            final(self).tree == old(self).tree,
            final(self).window == old(self).window,
            final(self).font_context == old(self).font_context,
            final(self).context.width == old(self).context.width,
            final(self).context.height == old(self).context.height,
            ({
                let plan = spec_text_plan(
                    text_elm.lines@,
                    text_elm.text@,
                    text_elm.textarea.0@,
                    text_elm.style,
                    text_elm.font,
                );
                match r {
                    Ok(()) => plan.is_some() && final(self).context.ops_model() == old(
                        self,
                    ).context.ops_model() + plan.unwrap(),
                    Err(e) => {
                        &&& e == Error::OutOfRangeText
                        &&& plan is None
                        &&& old(self).context.ops_model().is_prefix_of(
                            final(self).context.ops_model(),
                        )
                    },
                }
            }),
    {
        let ghost lines = text_elm.lines@;
        let ghost ops0 = self.context.ops_model();
        let n = text_elm.lines.len();
        let mut li: usize = 0;
        proof {
            assert(lines.skip(0) =~= lines);
            assert(ops0.skip(ops0.len() as int) =~= Seq::<DrawOpModel>::empty());
            assert(ops0.is_prefix_of(ops0)) by {
                assert(ops0 =~= ops0.take(ops0.len() as int));
            }
        }
        while li < n
            invariant
                text_elm.wf(),
                n == lines.len(),
                lines == text_elm.lines@,
                li <= n,
                self.tree == old(self).tree,
                self.window == old(self).window,
                self.font_context == old(self).font_context,
                self.context.width == old(self).context.width,
                self.context.height == old(self).context.height,
                ops0 == old(self).context.ops_model(),
                ops0.is_prefix_of(self.context.ops_model()),
                spec_text_plan(
                    lines,
                    text_elm.text@,
                    text_elm.textarea.0@,
                    text_elm.style,
                    text_elm.font,
                ) == match spec_text_plan(
                    lines.skip(li as int),
                    text_elm.text@,
                    text_elm.textarea.0@,
                    text_elm.style,
                    text_elm.font,
                ) {
                    Some(rest) => Some(self.context.ops_model().skip(ops0.len() as int) + rest),
                    None => None::<Seq<DrawOpModel>>,
                },
            decreases n - li,
        {
            let ghost gl = li as int;
            let line = text_elm.lines[li];
            proof {
                assert(lines.skip(gl)[0] == lines[gl]);
                assert(lines.skip(gl).drop_first() =~= lines.skip(gl + 1));
            }
            let ghost mid = self.context.ops_model();
            match self.paint_text_line(&text_elm, line) {
                Ok(()) => {
                    proof {
                        let p = spec_line_plan(
                            spec_line_items(
                                text_elm.text@,
                                0,
                                line.range.start as int,
                                line.range.end as int,
                            ),
                            text_elm.textarea.0@,
                            line.rect,
                            text_elm.style,
                            text_elm.font,
                        ).unwrap();
                        assert(self.context.ops_model() == mid + p);
                        assert(ops0.is_prefix_of(self.context.ops_model())) by {
                            assert(self.context.ops_model().take(ops0.len() as int) =~= mid.take(
                                ops0.len() as int,
                            ));
                        }
                        assert(self.context.ops_model().skip(ops0.len() as int) =~= mid.skip(
                            ops0.len() as int,
                        ) + p);
                        match spec_text_plan(
                            lines.skip(gl + 1),
                            text_elm.text@,
                            text_elm.textarea.0@,
                            text_elm.style,
                            text_elm.font,
                        ) {
                            Some(rest) => {
                                assert((mid.skip(ops0.len() as int) + p) + rest =~= mid.skip(
                                    ops0.len() as int,
                                ) + (p + rest));
                            },
                            None => {},
                        }
                    }
                },
                Err(e) => {
                    proof {
                        lemma_prefix_trans(ops0, mid, self.context.ops_model());
                    }
                    return Err(e);
                },
            }
            li += 1;
        }
        proof {
            assert(lines.skip(n as int).len() == 0);
            assert(ops0 + self.context.ops_model().skip(ops0.len() as int) =~= self.context.ops_model());
        }
        Ok(())
    }

    /// Paints the whole element tree, popping elements until none is left.
    /// Draw calls of elements painted before a failing line stay on the
    /// surface; an empty element slot is a `NullElement` failure, which a
    /// well-formed tree never holds.
    pub fn paint(&mut self) -> (r: Result<(), Error>)
        requires
            old(self).wf(),
        ensures
            final(self).wf(),
            final(self).window == old(self).window,
            final(self).font_context == old(self).font_context,
            final(self).context.width == old(self).context.width,
            final(self).context.height == old(self).context.height,
            match r {
                Ok(()) => {
                    &&& final(self).tree@.len() == 0
                    &&& spec_paint_plan(old(self).tree@).is_some()
                    &&& final(self).context.ops_model() == old(self).context.ops_model()
                        + spec_paint_plan(old(self).tree@).unwrap()
                },
                Err(e) => {
                    &&& e == Error::OutOfRangeText
                    &&& spec_paint_plan(old(self).tree@) is None
                    &&& old(self).context.ops_model().is_prefix_of(
                        final(self).context.ops_model(),
                    )
                },
            },
    {
        let ghost tree0 = self.tree@;
        let ghost ops0 = self.context.ops_model();
        proof {
            assert(ops0.skip(ops0.len() as int) =~= Seq::<DrawOpModel>::empty());
            assert(ops0.is_prefix_of(ops0)) by {
                assert(ops0 =~= ops0.take(ops0.len() as int));
            }
        }
        loop
            invariant
                old(self).wf(),
                tree0 == old(self).tree@,
                self.tree@ == tree0.take(self.tree@.len() as int),
                self.tree@.len() <= tree0.len(),
                self.window == old(self).window,
                self.font_context == old(self).font_context,
                self.context.width == old(self).context.width,
                self.context.height == old(self).context.height,
                ops0 == old(self).context.ops_model(),
                ops0.is_prefix_of(self.context.ops_model()),
                spec_paint_plan(tree0) == match spec_paint_plan(self.tree@) {
                    Some(rest) => Some(self.context.ops_model().skip(ops0.len() as int) + rest),
                    None => None::<Seq<DrawOpModel>>,
                },
            ensures
                self.tree@.len() == 0,
                self.window == old(self).window,
                self.font_context == old(self).font_context,
                self.context.width == old(self).context.width,
                self.context.height == old(self).context.height,
                ops0.is_prefix_of(self.context.ops_model()),
                spec_paint_plan(tree0) == match spec_paint_plan(self.tree@) {
                    Some(rest) => Some(self.context.ops_model().skip(ops0.len() as int) + rest),
                    None => None::<Seq<DrawOpModel>>,
                },
            decreases self.tree@.len(),
        {
            let ghost remaining = self.tree@;
            let popped = self.tree.pop();
            let elm = match popped {
                Some(elm) => elm,
                None => {
                    break ;
                },
            };
            proof {
                assert(remaining.len() > 0);
                assert(elm == remaining.last());
                assert(self.tree@ =~= tree0.take(self.tree@.len() as int));
                assert(elem_wf(remaining.last())) by {
                    assert(remaining[remaining.len() - 1] == tree0[remaining.len() - 1]);
                }
            }
            let ghost mid = self.context.ops_model();
            match elm {
                Element::Img(Some(img)) => {
                    let ghost imgspec = img;
                    match self.paint_img(img) {
                        Ok(()) => {},
                        Err(_) => {
                            proof {
                                assert(false);
                            }
                            return Err(Error::RenderTargetFailure);
                        },
                    }
                    proof {
                        let p = spec_elem_plan((Element::Img(Some(imgspec)))).unwrap();
                        assert(self.context.ops_model() =~= mid + p);
                        assert(ops0.is_prefix_of(self.context.ops_model())) by {
                            assert(self.context.ops_model().take(ops0.len() as int) =~= mid.take(
                                ops0.len() as int,
                            ));
                        }
                        assert(self.context.ops_model().skip(ops0.len() as int) =~= mid.skip(
                            ops0.len() as int,
                        ) + p);
                        match spec_paint_plan(self.tree@) {
                            Some(rest) => {
                                assert((mid.skip(ops0.len() as int) + p) + rest =~= mid.skip(
                                    ops0.len() as int,
                                ) + (p + rest));
                            },
                            None => {},
                        }
                    }
                },
                Element::Text(Some(t)) => {
                    let ghost tspec = t;
                    match self.paint_text(t) {
                        Ok(()) => {
                            proof {
                                let p = spec_elem_plan((Element::Text(Some(tspec)))).unwrap();
                                assert(self.context.ops_model() == mid + p);
                                assert(ops0.is_prefix_of(self.context.ops_model())) by {
                                    assert(self.context.ops_model().take(ops0.len() as int)
                                        =~= mid.take(ops0.len() as int));
                                }
                                assert(self.context.ops_model().skip(ops0.len() as int)
                                    =~= mid.skip(ops0.len() as int) + p);
                                match spec_paint_plan(self.tree@) {
                                    Some(rest) => {
                                        assert((mid.skip(ops0.len() as int) + p) + rest
                                            =~= mid.skip(ops0.len() as int) + (p + rest));
                                    },
                                    None => {},
                                }
                            }
                        },
                        Err(e) => {
                            proof {
                                lemma_prefix_trans(ops0, mid, self.context.ops_model());
                                assert(spec_elem_plan((Element::Text(Some(tspec)))) is None);
                            }
                            return Err(e);
                        },
                    }
                },
                _ => {
                    proof {
                        assert(false);
                    }
                    return Err(Error::NullElement);
                },
            }
        }
        proof {
            assert(self.tree@.len() == 0);
            assert(ops0 + self.context.ops_model().skip(ops0.len() as int) =~= self.context.ops_model());
        }
        Ok(())
    }

    /// Paints another writer's tree onto its own surface, then embeds that
    /// finished surface here as one opaque drawable element of the child
    /// window's size.
    pub fn set_container(&mut self, writer: &mut OGImageWriter, style: Style) -> (r: Result<
        (),
        Error,
    >)
        requires
            old(writer).wf(),
        ensures
            final(self).window == old(self).window,
            final(self).context == old(self).context,
            final(self).font_context == old(self).font_context,
            final(writer).wf(),
            old(self).wf() ==> final(self).wf(),
            match r {
                Ok(()) => {
                    &&& spec_paint_plan(old(writer).tree@).is_some()
                    &&& final(writer).tree@.len() == 0
                    &&& final(self).tree@.len() == old(self).tree@.len() + 1
                    &&& forall|i: int|
                        0 <= i < old(self).tree@.len() ==> final(self).tree@[i] == old(
                            self,
                        ).tree@[i]
                    &&& match final(self).tree@.last() {
                        Element::Img(Some(img)) => {
                            &&& img.data@.len() == 0
                            &&& img.src is None
                            &&& img.width == old(writer).window.width
                            &&& img.height == old(writer).window.height
                            &&& img.style == style
                        },
                        _ => false,
                    }
                },
                Err(e) => {
                    &&& e == Error::OutOfRangeText
                    &&& spec_paint_plan(old(writer).tree@) is None
                    &&& *final(self) == *old(self)
                },
            },
    {
        match writer.paint() {
            Ok(()) => {},
            Err(e) => {
                return Err(e);
            },
        }
        let width = writer.window.width;
        let height = writer.window.height;
        let img = Img {
            data: Vec::new(),
            src: None,
            width,
            height,
            rect: Rect { x: 0, y: 0, width, height },
            style,
        };
        self.tree.push(Element::Img(Some(img)));
        Ok(())
    }
}

} // verus!
