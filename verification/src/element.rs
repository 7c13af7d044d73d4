use vstd::prelude::*;
use crate::font::Font;
use crate::geom::{Line, Rect};
use crate::style::Style;
use crate::textarea::{
    lemma_text_bytes_nonneg, spec_concat_texts, spec_last_end, text_bytes, SplitText, TextArea,
};

verus! {

/// An image element: decoded or caller-named image data, its display size
/// and its target rectangle.
#[derive(Debug)]
pub struct Img {
    pub data: Vec<u8>,
    pub src: Option<String>,
    pub width: u32,
    pub height: u32,
    pub rect: Rect,
    pub style: Style,
}

/// A text element: the resolved TextArea, the concatenated paragraph text,
/// the element style, the parent font, and the layout-produced lines.
#[derive(Debug)]
pub struct Text {
    pub textarea: TextArea,
    pub text: Vec<char>,
    pub style: Style,
    pub font: Font,
    pub lines: Vec<Line>,
}

impl Text {
    /// The element's text is the concatenation of its fragments, and the
    /// fragment ranges are sound.
    pub open spec fn wf(self) -> bool {
        &&& self.textarea.wf()
        &&& self.text@ == spec_concat_texts(self.textarea.0@)
    }
}

/// One node of the element tree.
#[derive(Debug)]
pub enum Element {
    Img(Option<Img>),
    Text(Option<Text>),
}

/// An element slot holds content, and text content is well formed.
pub open spec fn elem_wf(e: Element) -> bool {
    match e {
        Element::Img(img) => img is Some,
        Element::Text(t) => match t {
            Some(t) => t.wf(),
            None => false,
        },
    }
}

/// Concatenating texts concatenates their byte lengths.
pub proof fn lemma_text_bytes_concat(a: Seq<char>, b: Seq<char>)
    ensures
        text_bytes(a + b) == text_bytes(a) + text_bytes(b),
    decreases a.len(),
{
    if a.len() == 0 {
        assert(a + b =~= b);
    } else {
        lemma_text_bytes_concat(a.drop_first(), b);
        assert((a + b).drop_first() =~= a.drop_first() + b);
        assert((a + b)[0] == a[0]);
    }
}

/// In a well-formed TextArea the concatenated text is exactly as long as the
/// fragment ranges say: the last range's end.
pub proof fn lemma_concat_total_bytes(frags: Seq<SplitText>)
    requires
        forall|i: int| 0 <= i < frags.len() ==> (#[trigger] frags[i]).wf(),
        frags.len() > 0 ==> frags[0].range.start == 0,
        forall|i: int|
            1 <= i < frags.len() ==> (#[trigger] frags[i]).range.start == frags[i - 1].range.end,
    ensures
        text_bytes(spec_concat_texts(frags)) == spec_last_end(frags),
    decreases frags.len(),
{
    if frags.len() == 0 {
    } else {
        let d = frags.drop_last();
        assert(forall|i: int| 0 <= i < d.len() ==> #[trigger] d[i] == frags[i]);
        lemma_concat_total_bytes(d);
        lemma_text_bytes_concat(spec_concat_texts(d), frags.last().text@);
        assert(frags.last().wf());
        if frags.len() == 1 {
            assert(frags.last().range.start == 0);
        } else {
            assert(frags.last().range.start == frags[frags.len() - 2].range.end);
            assert(d.last() == frags[frags.len() - 2]);
        }
    }
}

/// The byte length of a well-formed text element's text fits the machine.
pub proof fn lemma_text_elm_total(t: Text)
    requires
        t.wf(),
    ensures
        0 <= text_bytes(t.text@) <= usize::MAX,
{
    lemma_concat_total_bytes(t.textarea.0@);
    lemma_text_bytes_nonneg(t.text@);
    if t.textarea.0@.len() > 0 {
        assert(spec_last_end(t.textarea.0@) == t.textarea.0@.last().range.end as int);
    }
}

} // verus!
