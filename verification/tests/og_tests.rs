use og_image_writer::context::{Context, DrawOp};
use og_image_writer::font::{Font, FontContext, FontIndex, FontIndexStore};
use og_image_writer::geom::{ByteRange, Line, Rect};
use og_image_writer::style::{Rgba, Style, WindowStyle};
use og_image_writer::textarea::TextArea;
use og_image_writer::writer::OGImageWriter;
use og_image_writer::Error;

/// Font data covering one inclusive code-point range: eight bytes, both
/// bounds little-endian.
fn range_bytes(first: u32, last: u32) -> Vec<u8> {
    let mut v = Vec::new();
    v.extend_from_slice(&first.to_le_bytes());
    v.extend_from_slice(&last.to_le_bytes());
    v
}

fn ascii_font_bytes() -> Vec<u8> {
    range_bytes(0, 0x7F)
}

fn ascii_font() -> Font {
    Font::try_from_vec(ascii_font_bytes()).unwrap()
}

fn style(font_size: u32) -> Style {
    Style {
        font_size,
        color: Rgba(10, 20, 30, 255),
    }
}

#[test]
fn font_parse_rejects_partial_record() {
    assert!(Font::try_from_vec(vec![1, 2, 3]).is_none());
}

#[test]
fn font_parse_rejects_reversed_range() {
    // first code point after last
    assert!(Font::try_from_vec(range_bytes(10, 5)).is_none());
}

#[test]
fn font_parse_reads_ranges() {
    let f = Font::try_from_vec(ascii_font_bytes()).unwrap();
    assert_eq!(f.ranges.len(), 1);
    assert_eq!(f.ranges[0].first, 0);
    assert_eq!(f.ranges[0].last, 0x7F);
}

#[test]
fn select_font_family_picks_first_cover() {
    let mut fc = FontContext::new();
    fc.push_font(Font::try_from_vec(range_bytes(100, 110)).unwrap());
    fc.push_font(ascii_font());
    // 'a' is 97, outside [100,110], so the second font answers.
    assert_eq!(fc.select_font_family('a').unwrap(), FontIndex(1));
    // 'i' is 105, inside the first font's range.
    assert_eq!(fc.select_font_family('i').unwrap(), FontIndex(0));
    assert_eq!(
        fc.select_font_family('\u{1F600}'),
        Err(Error::NotFoundSpecifiedFontFamily)
    );
}

#[test]
fn scenario_plain_ascii_single_parent_run() {
    // One plain fragment "Hello"; the parent font covers all ASCII.
    let mut ta = TextArea::new();
    ta.push_text("Hello");
    let fc = FontContext::new();
    ta.set_glyphs(&ascii_font(), &fc).unwrap();
    let st = &ta.0[0];
    assert_eq!(st.glyphs.len(), 1);
    assert_eq!(st.glyphs[0].range, ByteRange { start: 0, end: 5 });
    assert_eq!(
        st.glyphs[0].font_index_store,
        FontIndexStore::Parent(FontIndex(0))
    );
}

#[test]
fn scenario_emoji_fallback_three_runs() {
    // "A😀B": parent covers 'A' and 'B' but not the emoji; one fallback
    // covers the emoji.  Bytes: 'A' = 1, emoji = 4, 'B' = 1.
    let mut ta = TextArea::new();
    ta.push_text("A\u{1F600}B");
    let mut fc = FontContext::new();
    fc.push_font(Font::try_from_vec(range_bytes(0x1F600, 0x1F600)).unwrap());
    ta.set_glyphs(&ascii_font(), &fc).unwrap();
    let st = &ta.0[0];
    assert_eq!(st.glyphs.len(), 3);
    assert_eq!(st.glyphs[0].range, ByteRange { start: 0, end: 1 });
    assert_eq!(
        st.glyphs[0].font_index_store,
        FontIndexStore::Parent(FontIndex(0))
    );
    assert_eq!(st.glyphs[1].range, ByteRange { start: 1, end: 5 });
    assert_eq!(
        st.glyphs[1].font_index_store,
        FontIndexStore::Global(FontIndex(0))
    );
    assert_eq!(st.glyphs[2].range, ByteRange { start: 5, end: 6 });
    assert_eq!(
        st.glyphs[2].font_index_store,
        FontIndexStore::Parent(FontIndex(0))
    );
}

#[test]
fn scenario_child_font_takes_priority() {
    // A styled fragment with its own font covering 'X'; the parent lacks
    // 'X'; a fallback also covers it.  Child wins.
    let mut ta = TextArea::new();
    ta.push("X", style(16), Some(range_bytes('X' as u32, 'X' as u32)))
        .unwrap();
    let parent = Font::try_from_vec(range_bytes('a' as u32, 'z' as u32)).unwrap();
    let mut fc = FontContext::new();
    fc.push_font(ascii_font());
    ta.set_glyphs(&parent, &fc).unwrap();
    let st = &ta.0[0];
    assert_eq!(st.glyphs.len(), 1);
    assert_eq!(
        st.glyphs[0].font_index_store,
        FontIndexStore::Child(FontIndex(0))
    );
}

#[test]
fn scenario_empty_textarea_noop() {
    let mut ta = TextArea::new();
    assert_eq!(ta.as_string(), "");
    let fc = FontContext::new();
    ta.set_glyphs(&ascii_font(), &fc).unwrap();
    assert_eq!(ta.as_string(), "");
    assert_eq!(ta.0.len(), 0);
}

#[test]
fn scenario_char_extents_across_fragments_is_out_of_range() {
    let mut ta = TextArea::new();
    ta.push_text("ab");
    ta.push_text("cd");
    let fc = FontContext::new();
    ta.set_glyphs(&ascii_font(), &fc).unwrap();
    let ctx = Context::new(100, 100);
    // [1, 3) straddles the boundary between the fragments at byte 2.
    let r = ta.char_extents(
        'b',
        &ascii_font(),
        ByteRange { start: 1, end: 3 },
        &style(12),
        &ctx,
        &fc,
    );
    assert_eq!(r, Err(Error::OutOfRangeText));
}

#[test]
fn char_extents_in_range_measures() {
    let mut ta = TextArea::new();
    ta.push_text("ab");
    let fc = FontContext::new();
    ta.set_glyphs(&ascii_font(), &fc).unwrap();
    let ctx = Context::new(100, 100);
    let m = ta
        .char_extents(
            'b',
            &ascii_font(),
            ByteRange { start: 1, end: 2 },
            &style(12),
            &ctx,
            &fc,
        )
        .unwrap();
    assert_eq!(m.width, 12);
    assert_eq!(m.height, 12);
}

#[test]
fn char_extents_missing_child_font_fails() {
    // A fragment resolved with a child font, then queried after the glyph
    // recorded a Child tier: with the fragment's font present it succeeds.
    let mut ta = TextArea::new();
    ta.push("X", style(10), Some(range_bytes('X' as u32, 'X' as u32)))
        .unwrap();
    let parent = Font::try_from_vec(range_bytes('a' as u32, 'z' as u32)).unwrap();
    let fc = FontContext::new();
    ta.set_glyphs(&parent, &fc).unwrap();
    let ctx = Context::new(50, 50);
    let m = ta
        .char_extents('X', &parent, ByteRange { start: 0, end: 1 }, &style(12), &ctx, &fc)
        .unwrap();
    // font size comes from the fragment's own style
    assert_eq!(m.width, 10);
}

#[test]
fn concatenated_text_is_in_order_concatenation() {
    let mut ta = TextArea::new();
    ta.push_text("Hello, ");
    ta.push("world", style(12), None).unwrap();
    ta.push_text("!");
    assert_eq!(ta.as_string(), "Hello, world!");
}

#[test]
fn fragment_ranges_are_contiguous() {
    let mut ta = TextArea::new();
    ta.push_text("A\u{1F600}");
    ta.push_text("bc");
    assert_eq!(ta.0[0].range, ByteRange { start: 0, end: 5 });
    assert_eq!(ta.0[1].range, ByteRange { start: 5, end: 7 });
}

#[test]
fn push_with_bad_font_bytes_fails_and_changes_nothing() {
    let mut ta = TextArea::new();
    let r = ta.push("x", style(12), Some(vec![0, 1, 2]));
    assert_eq!(r, Err(Error::InvalidFontBytes));
    assert_eq!(ta.0.len(), 0);
}

#[test]
fn resolution_without_cover_fails_per_character() {
    let mut ta = TextArea::new();
    ta.push_text("a\u{1F600}");
    let fc = FontContext::new();
    let r = ta.set_glyphs(&ascii_font(), &fc);
    assert_eq!(r, Err(Error::NotFoundSpecifiedFontFamily));
}

#[test]
fn resolution_is_deterministic() {
    let make = || {
        let mut ta = TextArea::new();
        ta.push_text("A\u{1F600}B");
        let mut fc = FontContext::new();
        fc.push_font(Font::try_from_vec(range_bytes(0x1F600, 0x1F600)).unwrap());
        ta.set_glyphs(&ascii_font(), &fc).unwrap();
        ta
    };
    let a = make();
    let b = make();
    assert_eq!(a.0[0].glyphs, b.0[0].glyphs);
}

#[test]
fn lookup_in_range_succeeds_and_crossing_fails() {
    let mut ta = TextArea::new();
    ta.push_text("ab");
    ta.push_text("cd");
    let fc = FontContext::new();
    ta.set_glyphs(&ascii_font(), &fc).unwrap();
    // every in-range character's byte range is found
    for (s, e) in [(0, 1), (1, 2), (2, 3), (3, 4)] {
        let (st, g) = ta.get_glyphs_from_char_range(ByteRange { start: s, end: e });
        assert!(st.is_some() && g.is_some());
    }
    // a range crossing the fragment boundary is found nowhere
    let (st, g) = ta.get_glyphs_from_char_range(ByteRange { start: 1, end: 3 });
    assert!(st.is_none() && g.is_none());
    // outside the paragraph
    let (st, g) = ta.get_glyphs_from_char_range(ByteRange { start: 4, end: 5 });
    assert!(st.is_none() && g.is_none());
}

#[test]
fn push_text_with_glyphs_resolves_immediately() {
    let mut ta = TextArea::new();
    let fc = FontContext::new();
    ta.push_text_with_glyphs("hey", &ascii_font(), &fc).unwrap();
    assert_eq!(ta.0[0].glyphs.len(), 1);
    assert_eq!(ta.0[0].glyphs[0].range, ByteRange { start: 0, end: 3 });
}

fn window(bg: Option<Rgba>) -> WindowStyle {
    WindowStyle {
        width: 100,
        height: 60,
        background_color: bg,
    }
}

#[test]
fn writer_new_paints_background() {
    let w = OGImageWriter::new(window(Some(Rgba(1, 2, 3, 255)))).unwrap();
    assert_eq!(w.context.ops.len(), 1);
    match &w.context.ops[0] {
        DrawOp::Rect {
            color,
            x,
            y,
            width,
            height,
        } => {
            assert_eq!(*color, Rgba(1, 2, 3, 255));
            assert_eq!((*x, *y, *width, *height), (0, 0, 100, 60));
        }
        _ => panic!("expected a background rectangle"),
    }
}

#[test]
fn writer_paint_groups_by_fragment() {
    let mut w = OGImageWriter::new(window(None)).unwrap();
    let mut ta = TextArea::new();
    ta.push_text("ab");
    ta.push_text("cd");
    w.set_textarea(ta, style(10), ascii_font_bytes()).unwrap();
    w.set_lines(vec![Line {
        range: ByteRange { start: 0, end: 4 },
        rect: Rect {
            x: 7,
            y: 20,
            width: 100,
            height: 12,
        },
    }])
    .unwrap();
    w.paint().unwrap();
    assert_eq!(w.tree.len(), 0);
    // two fragments, one draw call each; x advances by the first group's
    // measured width (font size per character)
    assert_eq!(w.context.ops.len(), 2);
    match &w.context.ops[0] {
        DrawOp::Text {
            x, y, font_size, text, ..
        } => {
            assert_eq!(*x, 7);
            assert_eq!(*y, 20);
            assert_eq!(*font_size, 10);
            assert_eq!(text, &vec!['a', 'b']);
        }
        _ => panic!("expected a text draw"),
    }
    match &w.context.ops[1] {
        DrawOp::Text { x, text, .. } => {
            assert_eq!(*x, 7 + 20);
            assert_eq!(text, &vec!['c', 'd']);
        }
        _ => panic!("expected a text draw"),
    }
}

#[test]
fn writer_set_text_then_two_lines() {
    let mut w = OGImageWriter::new(window(None)).unwrap();
    w.set_text("hi there", style(8), ascii_font_bytes()).unwrap();
    w.set_lines(vec![
        Line {
            range: ByteRange { start: 0, end: 3 },
            rect: Rect {
                x: 0,
                y: 0,
                width: 100,
                height: 10,
            },
        },
        Line {
            range: ByteRange { start: 3, end: 8 },
            rect: Rect {
                x: 0,
                y: 10,
                width: 100,
                height: 10,
            },
        },
    ])
    .unwrap();
    w.paint().unwrap();
    // one fragment: one draw call per line
    assert_eq!(w.context.ops.len(), 2);
    match &w.context.ops[1] {
        DrawOp::Text { y, text, .. } => {
            assert_eq!(*y, 10);
            assert_eq!(text, &vec!['t', 'h', 'e', 'r', 'e']);
        }
        _ => panic!("expected a text draw"),
    }
}

#[test]
fn writer_set_text_with_bad_font_fails() {
    let mut w = OGImageWriter::new(window(None)).unwrap();
    let r = w.set_text("hi", style(8), vec![9, 9]);
    assert_eq!(r, Err(Error::InvalidFontBytes));
    assert_eq!(w.tree.len(), 0);
}

#[test]
fn writer_set_text_without_cover_fails() {
    let mut w = OGImageWriter::new(window(None)).unwrap();
    let r = w.set_text("\u{1F600}", style(8), ascii_font_bytes());
    assert_eq!(r, Err(Error::NotFoundSpecifiedFontFamily));
}

#[test]
fn writer_fallback_font_reaches_resolution() {
    let mut w = OGImageWriter::new(window(None)).unwrap();
    w.push_fallback_font(Font::try_from_vec(range_bytes(0x1F600, 0x1F600)).unwrap());
    w.set_text("\u{1F600}", style(8), ascii_font_bytes()).unwrap();
    assert_eq!(w.tree.len(), 1);
}

#[test]
fn writer_set_lines_without_text_element_fails() {
    let mut w = OGImageWriter::new(window(None)).unwrap();
    assert_eq!(w.set_lines(vec![]), Err(Error::NullElement));
}

#[test]
fn writer_set_img_records_placement() {
    let mut w = OGImageWriter::new(window(None)).unwrap();
    w.set_img("logo.png", 32, 16, style(8)).unwrap();
    w.paint().unwrap();
    assert_eq!(w.context.ops.len(), 1);
    match &w.context.ops[0] {
        DrawOp::Image { width, height, .. } => {
            assert_eq!((*width, *height), (32, 16));
        }
        _ => panic!("expected an image draw"),
    }
}

fn tiny_png() -> Vec<u8> {
    let img = image::RgbaImage::new(3, 2);
    let mut buf = Vec::new();
    image::DynamicImage::ImageRgba8(img)
        .write_to(&mut std::io::Cursor::new(&mut buf), image::ImageFormat::Png)
        .unwrap();
    buf
}

#[test]
fn writer_set_img_with_data_decodes() {
    let mut w = OGImageWriter::new(window(None)).unwrap();
    w.set_img_with_data(&tiny_png(), 30, 20, style(8)).unwrap();
    assert_eq!(w.tree.len(), 1);
    let r = w.set_img_with_data(&[1, 2, 3], 30, 20, style(8));
    assert!(r.is_err());
    assert_eq!(w.tree.len(), 1);
}

#[test]
fn writer_from_data_takes_image_size() {
    let w = OGImageWriter::from_data(window(None), &tiny_png()).unwrap();
    assert_eq!(w.window.width, 3);
    assert_eq!(w.window.height, 2);
    let r = OGImageWriter::from_data(window(None), &[0, 1, 2]);
    assert!(matches!(r, Err(Error::NotFoundContainerImage)));
}

#[test]
fn writer_set_container_embeds_painted_child() {
    let mut parent = OGImageWriter::new(window(None)).unwrap();
    let mut child = OGImageWriter::new(WindowStyle {
        width: 40,
        height: 30,
        background_color: Some(Rgba(9, 9, 9, 255)),
    })
    .unwrap();
    parent.set_container(&mut child, style(8)).unwrap();
    assert_eq!(child.tree.len(), 0);
    parent.paint().unwrap();
    assert_eq!(parent.context.ops.len(), 1);
    match &parent.context.ops[0] {
        DrawOp::Image { width, height, .. } => {
            assert_eq!((*width, *height), (40, 30));
        }
        _ => panic!("expected an image draw"),
    }
}

#[test]
fn writer_paints_elements_in_pop_order() {
    let mut w = OGImageWriter::new(window(None)).unwrap();
    w.set_img("a.png", 5, 5, style(8)).unwrap();
    w.set_text("x", style(8), ascii_font_bytes()).unwrap();
    w.set_lines(vec![Line {
        range: ByteRange { start: 0, end: 1 },
        rect: Rect {
            x: 0,
            y: 0,
            width: 10,
            height: 10,
        },
    }])
    .unwrap();
    w.paint().unwrap();
    // the tree is popped: the last element set is drawn first
    assert_eq!(w.context.ops.len(), 2);
    assert!(matches!(&w.context.ops[0], DrawOp::Text { .. }));
    assert!(matches!(&w.context.ops[1], DrawOp::Image { .. }));
}
