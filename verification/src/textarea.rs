use vstd::prelude::*;
use crate::font::{match_font_family, Font, FontContext, FontIndex, FontIndexStore};
use crate::geom::ByteRange;
use crate::glyph::{Glyph, GlyphModel};
use crate::Error;

verus! {

/// How many bytes the UTF-8 encoding of a character takes.
pub open spec fn char_width(c: char) -> int {
    if (c as u32) < 0x80 {
        1
    } else if (c as u32) < 0x800 {
        2
    } else if (c as u32) < 0x10000 {
        3
    } else {
        4
    }
}

/// How many bytes the UTF-8 encoding of a character sequence takes.
pub open spec fn text_bytes(s: Seq<char>) -> int
    decreases s.len(),
{
    if s.len() == 0 {
        0
    } else {
        char_width(s[0]) + text_bytes(s.drop_first())
    }
}

pub proof fn lemma_text_bytes_nonneg(s: Seq<char>)
    ensures
        text_bytes(s) >= 0,
    decreases s.len(),
{
    if s.len() > 0 {
        lemma_text_bytes_nonneg(s.drop_first());
    }
}

/// Splitting a text splits its byte length.
pub proof fn lemma_text_bytes_split(s: Seq<char>, i: int)
    requires
        0 <= i <= s.len(),
    ensures
        text_bytes(s) == text_bytes(s.take(i)) + text_bytes(s.skip(i)),
    decreases i,
{
    if i == 0 {
        assert(s.take(0).len() == 0);
        assert(s.skip(0) =~= s);
    } else {
        lemma_text_bytes_split(s.drop_first(), i - 1);
        assert(s.take(i).drop_first() =~= s.drop_first().take(i - 1));
        assert(s.skip(i) =~= s.drop_first().skip(i - 1));
        assert(s.take(i)[0] == s[0]);
        assert(text_bytes(s.take(i)) == char_width(s[0]) + text_bytes(s.drop_first().take(i - 1)));
    }
}

/// One more character, `char_width` more bytes.
pub proof fn lemma_text_bytes_take_succ(s: Seq<char>, i: int)
    requires
        0 <= i < s.len(),
    ensures
        text_bytes(s.take(i + 1)) == text_bytes(s.take(i)) + char_width(s[i]),
{
    let t = s.take(i + 1);
    lemma_text_bytes_split(t, i);
    assert(t.take(i) =~= s.take(i));
    assert(t.skip(i) =~= seq![s[i]]);
    assert(seq![s[i]].drop_first() =~= Seq::<char>::empty());
    assert(seq![s[i]][0] == s[i]);
    assert(text_bytes(Seq::<char>::empty()) == 0);
    assert(text_bytes(seq![s[i]]) == char_width(s[i]));
}

/// The tier that covers a character, by the strict priority order: the
/// fragment's own font, then the caller-supplied default, then the first
/// covering fallback of the shared table.  `None` when nothing covers it.
pub open spec fn spec_tier(
    child: Option<Font>,
    parent: Font,
    fallback: Seq<Font>,
    c: char,
) -> Option<FontIndexStore> {
    if (match child {
        Some(f) => f.spec_covers(c),
        None => false,
    }) {
        Some(FontIndexStore::Child(FontIndex(0)))
    } else if parent.spec_covers(c) {
        Some(FontIndexStore::Parent(FontIndex(0)))
    } else {
        match FontContext::spec_select(fallback, c) {
            Some(i) => Some(FontIndexStore::Global(FontIndex(i as usize))),
            None => None,
        }
    }
}

/// `spec_tier`, with an arbitrary default where no tier exists.  Only applied
/// to texts whose characters all resolve.
pub open spec fn spec_tier_or(
    child: Option<Font>,
    parent: Font,
    fallback: Seq<Font>,
    c: char,
) -> FontIndexStore {
    match spec_tier(child, parent, fallback, c) {
        Some(t) => t,
        None => FontIndexStore::Parent(FontIndex(0)),
    }
}

/// Every character of the text has some covering tier.
pub open spec fn all_resolvable(
    s: Seq<char>,
    child: Option<Font>,
    parent: Font,
    fallback: Seq<Font>,
) -> bool {
    forall|i: int|
        0 <= i < s.len() ==> (#[trigger] spec_tier(child, parent, fallback, s[i])).is_some()
}

/// The glyph runs of a text starting at byte `pos`: maximal same-tier runs,
/// in order, partitioning the text's byte range.
pub open spec fn spec_runs(
    s: Seq<char>,
    pos: int,
    child: Option<Font>,
    parent: Font,
    fallback: Seq<Font>,
) -> Seq<GlyphModel>
    decreases s.len(), 0int,
{
    if s.len() == 0 {
        Seq::empty()
    } else {
        spec_runs_open(
            s.drop_first(),
            pos + char_width(s[0]),
            pos,
            spec_tier_or(child, parent, fallback, s[0]),
            child,
            parent,
            fallback,
        )
    }
}

/// The glyph runs of a text preceded by an open run `[run_start, e)` of tier
/// `t`: the open run swallows leading characters of the same tier, closes at
/// the first differing one, and the rest resolves on its own.
pub open spec fn spec_runs_open(
    s: Seq<char>,
    e: int,
    run_start: int,
    t: FontIndexStore,
    child: Option<Font>,
    parent: Font,
    fallback: Seq<Font>,
) -> Seq<GlyphModel>
    decreases s.len(), 1int,
{
    if s.len() == 0 {
        seq![GlyphModel { start: run_start, end: e, store: t }]
    } else if spec_tier_or(child, parent, fallback, s[0]) == t {
        spec_runs_open(s.drop_first(), e + char_width(s[0]), run_start, t, child, parent, fallback)
    } else {
        seq![GlyphModel { start: run_start, end: e, store: t }] + spec_runs(
            s,
            e,
            child,
            parent,
            fallback,
        )
    }
}

/// How many bytes the UTF-8 encoding of a character takes.
pub fn char_utf8_width(c: char) -> (r: usize)
    ensures
        r == char_width(c),
{
    let u = c as u32;
    if u < 0x80 {
        1
    } else if u < 0x800 {
        2
    } else if u < 0x10000 {
        3
    } else {
        4
    }
}

/// One caller-appended span of the paragraph: its text, optional style and
/// font overrides, its paragraph-global byte range, and — once resolution has
/// run — its glyph runs.
#[derive(Debug)]
pub struct SplitText {
    pub text: String,
    pub style: Option<crate::style::Style>,
    pub font: Option<Font>,
    pub range: ByteRange,
    pub glyphs: Vec<Glyph>,
}

impl SplitText {
    /// The byte range is exactly as long as the text.
    pub open spec fn wf(self) -> bool {
        self.range.start + text_bytes(self.text@) == self.range.end
    }
}

/// Resolves one character against the three tiers, in priority order.
fn resolve_tier(
    child: &Option<Font>,
    parent_font: &Font,
    font_context: &FontContext,
    ch: char,
) -> (r: Result<FontIndexStore, Error>)
    ensures
        match spec_tier(*child, *parent_font, font_context.fonts@, ch) {
            Some(t) => r == Ok::<FontIndexStore, Error>(t),
            None => r == Err::<FontIndexStore, Error>(Error::NotFoundSpecifiedFontFamily),
        },
{
    let has_child = match child {
        Some(f) => match_font_family(ch, f),
        None => false,
    };
    if has_child {
        return Ok(FontIndexStore::Child(FontIndex(0)));
    }
    if match_font_family(ch, parent_font) {
        return Ok(FontIndexStore::Parent(FontIndex(0)));
    }
    match font_context.select_font_family(ch) {
        Ok(idx) => Ok(FontIndexStore::Global(idx)),
        Err(e) => Err(e),
    }
}

impl SplitText {
    /// Partitions `text` into maximal same-tier runs, appending them to
    /// `glyphs` in left-to-right order and advancing the paragraph cursor by
    /// the fragment's byte length.  Fails, leaving fragment and cursor
    /// untouched, exactly when some character has no covering tier.
    pub fn set_glyphs(
        &mut self,
        parent_font: &Font,
        current_range_start: &mut usize,
        font_context: &FontContext,
    ) -> (r: Result<(), Error>)
        requires
            *old(current_range_start) + text_bytes(old(self).text@) <= usize::MAX,
        ensures
            match r {
                Ok(()) => {
                    &&& all_resolvable(
                        old(self).text@,
                        old(self).font,
                        *parent_font,
                        font_context.fonts@,
                    )
                    &&& final(self).glyphs.deep_view() == old(self).glyphs.deep_view()
                        + spec_runs(
                        old(self).text@,
                        *old(current_range_start) as int,
                        old(self).font,
                        *parent_font,
                        font_context.fonts@,
                    )
                    &&& final(self).text == old(self).text
                    &&& final(self).style == old(self).style
                    &&& final(self).font == old(self).font
                    &&& final(self).range == old(self).range
                    &&& *final(current_range_start) == *old(current_range_start) + text_bytes(
                        old(self).text@,
                    )
                },
                Err(e) => {
                    &&& e == Error::NotFoundSpecifiedFontFamily
                    &&& !all_resolvable(
                        old(self).text@,
                        old(self).font,
                        *parent_font,
                        font_context.fonts@,
                    )
                    &&& *final(self) == *old(self)
                    &&& *final(current_range_start) == *old(current_range_start)
                },
            },
    {
        let ghost s = self.text@;
        let ghost child = self.font;
        let ghost pf = *parent_font;
        let ghost fb = font_context.fonts@;
        let ghost start0 = *current_range_start as int;

        let n = self.text.as_str().unicode_len();
        if n == 0 {
            proof {
                assert(spec_runs(s, start0, child, pf, fb) =~= Seq::<GlyphModel>::empty());
                assert(self.glyphs.deep_view() =~= self.glyphs.deep_view() + Seq::<
                    GlyphModel,
                >::empty());
            }
            return Ok(());
        }
        let c0 = self.text.as_str().get_char(0);
        let run_tier0 = match resolve_tier(&self.font, parent_font, font_context, c0) {
            Ok(t) => t,
            Err(e) => {
                proof {
                    assert(spec_tier(child, pf, fb, s[0]).is_none());
                    assert(!all_resolvable(s, child, pf, fb));
                }
                return Err(e);
            },
        };
        let w0 = char_utf8_width(c0);
        proof {
            lemma_text_bytes_split(s, 1);
            lemma_text_bytes_nonneg(s.skip(1));
            assert(s.take(1) =~= seq![s[0]]);
            assert(seq![s[0]].drop_first() =~= Seq::<char>::empty());
            assert(text_bytes(s.take(1)) == char_width(s[0]));
        }
        let run_start: usize = *current_range_start;
        let mut run_start = run_start;
        let mut run_tier = run_tier0;
        let mut cur_end: usize = run_start + w0;
        let mut glyphs: Vec<Glyph> = Vec::new();
        let mut i: usize = 1;
        proof {
            assert(s.drop_first() =~= s.skip(1));
            assert(spec_runs(s, start0, child, pf, fb) == spec_runs_open(
                s.skip(1),
                start0 + char_width(s[0]),
                start0,
                spec_tier_or(child, pf, fb, s[0]),
                child,
                pf,
                fb,
            ));
            assert(glyphs.deep_view() =~= Seq::<GlyphModel>::empty());
        }
        while i < n
            invariant
                n == s.len(),
                1 <= i <= n,
                s == self.text@,
                child == self.font,
                pf == *parent_font,
                fb == font_context.fonts@,
                *self == *old(self),
                *current_range_start == *old(current_range_start),
                start0 == *old(current_range_start) as int,
                start0 + text_bytes(s) <= usize::MAX,
                all_resolvable(s.take(i as int), child, pf, fb),
                run_start < cur_end,
                start0 <= run_start,
                cur_end as int == start0 + text_bytes(s.take(i as int)),
                spec_runs(s, start0, child, pf, fb) == glyphs.deep_view() + spec_runs_open(
                    s.skip(i as int),
                    cur_end as int,
                    run_start as int,
                    run_tier,
                    child,
                    pf,
                    fb,
                ),
            decreases n - i,
        {
            let ghost gi = i as int;
            let c = self.text.as_str().get_char(i);
            proof {
                assert(s.skip(gi)[0] == s[gi]);
            }
            let t2 = match resolve_tier(&self.font, parent_font, font_context, c) {
                Ok(t) => t,
                Err(e) => {
                    proof {
                        assert(spec_tier(child, pf, fb, s[gi]).is_none());
                        assert(!all_resolvable(s, child, pf, fb));
                    }
                    return Err(e);
                },
            };
            let w = char_utf8_width(c);
            proof {
                lemma_text_bytes_take_succ(s, gi);
                lemma_text_bytes_split(s, gi + 1);
                lemma_text_bytes_nonneg(s.skip(gi + 1));
                assert(all_resolvable(s.take(gi + 1), child, pf, fb)) by {
                    assert(forall|j: int|
                        0 <= j < gi + 1 ==> s.take(gi + 1)[j] == s.take(gi).push(s[gi])[j]);
                }
                assert(s.skip(gi).drop_first() =~= s.skip(gi + 1));
            }
            if t2 == run_tier {
                cur_end = cur_end + w;
            } else {
                let g = Glyph::new(ByteRange { start: run_start, end: cur_end }, run_tier);
                let ghost old_deep = glyphs.deep_view();
                glyphs.push(g);
                proof {
                    assert(glyphs.deep_view() =~= old_deep.push(g@));
                    assert(old_deep + (seq![g@] + spec_runs(s.skip(gi), cur_end as int, child, pf, fb))
                        =~= old_deep.push(g@) + spec_runs(s.skip(gi), cur_end as int, child, pf, fb));
                }
                run_start = cur_end;
                run_tier = t2;
                cur_end = cur_end + w;
            }
            i += 1;
        }
        let g = Glyph::new(ByteRange { start: run_start, end: cur_end }, run_tier);
        let ghost old_deep = glyphs.deep_view();
        glyphs.push(g);
        proof {
            assert(s.skip(n as int).len() == 0);
            assert(glyphs.deep_view() =~= old_deep.push(g@));
            assert(old_deep + seq![g@] =~= old_deep.push(g@));
            assert(s.take(n as int) =~= s);
            assert(glyphs.deep_view() == spec_runs(s, start0, child, pf, fb));
        }
        let ghost self_deep = self.glyphs.deep_view();
        let ghost add_deep = glyphs.deep_view();
        self.glyphs.append(&mut glyphs);
        proof {
            assert(self.glyphs.deep_view() =~= self_deep + add_deep);
        }
        *current_range_start = cur_end;
        Ok(())
    }
}

} // verus!

verus! {

/// Finds the first glyph run whose range contains `[start, end)`.
pub open spec fn spec_find_glyph(gs: Seq<GlyphModel>, start: int, end: int) -> Option<int>
    decreases gs.len(),
{
    if gs.len() == 0 {
        None
    } else if gs[0].spec_contains(start, end) {
        Some(0int)
    } else {
        match spec_find_glyph(gs.drop_first(), start, end) {
            Some(i) => Some(i + 1),
            None => None,
        }
    }
}

pub proof fn lemma_find_glyph_bounds(gs: Seq<GlyphModel>, start: int, end: int)
    ensures
        match spec_find_glyph(gs, start, end) {
            Some(j) => 0 <= j < gs.len() && gs[j].spec_contains(start, end),
            None => true,
        },
    decreases gs.len(),
{
    if gs.len() > 0 && !gs[0].spec_contains(start, end) {
        lemma_find_glyph_bounds(gs.drop_first(), start, end);
    }
}

pub proof fn lemma_find_glyph_some_iff(gs: Seq<GlyphModel>, start: int, end: int)
    ensures
        spec_find_glyph(gs, start, end).is_some() <==> exists|k: int|
            0 <= k < gs.len() && (#[trigger] gs[k]).spec_contains(start, end),
    decreases gs.len(),
{
    if gs.len() > 0 {
        lemma_find_glyph_some_iff(gs.drop_first(), start, end);
        if gs[0].spec_contains(start, end) {
        } else {
            assert(forall|k: int|
                1 <= k < gs.len() ==> gs.drop_first()[k - 1] == #[trigger] gs[k]);
            if exists|k: int| 0 <= k < gs.len() && (#[trigger] gs[k]).spec_contains(start, end) {
                let k = choose|k: int|
                    0 <= k < gs.len() && (#[trigger] gs[k]).spec_contains(start, end);
                assert(gs.drop_first()[k - 1].spec_contains(start, end));
            }
        }
    }
}

impl SplitText {
    /// Returns the first glyph run whose range fully contains `[range.start,
    /// range.end)`, scanning runs in order; `None` when no run contains it.
    pub fn get_glyphs_from_char_range(&self, range: ByteRange) -> (r: Option<&Glyph>)
        ensures
            match r {
                Some(g) => {
                    &&& spec_find_glyph(
                        self.glyphs.deep_view(),
                        range.start as int,
                        range.end as int,
                    ) == Some(spec_find_glyph(
                        self.glyphs.deep_view(),
                        range.start as int,
                        range.end as int,
                    ).unwrap())
                    &&& *g == self.glyphs@[spec_find_glyph(
                        self.glyphs.deep_view(),
                        range.start as int,
                        range.end as int,
                    ).unwrap()]
                },
                None => spec_find_glyph(
                    self.glyphs.deep_view(),
                    range.start as int,
                    range.end as int,
                ).is_none(),
            },
    {
        let ghost gs = self.glyphs.deep_view();
        let ghost qs = range.start as int;
        let ghost qe = range.end as int;
        let n = self.glyphs.len();
        let mut i: usize = 0;
        proof {
            assert(gs.skip(0) =~= gs);
        }
        while i < n
            invariant
                n == self.glyphs@.len(),
                gs == self.glyphs.deep_view(),
                qs == range.start as int,
                qe == range.end as int,
                i <= n,
                spec_find_glyph(gs, qs, qe) == match spec_find_glyph(gs.skip(i as int), qs, qe) {
                    Some(k) => Some(k + i),
                    None => None::<int>,
                },
            decreases n - i,
        {
            proof {
                assert(gs.skip(i as int)[0] == gs[i as int]);
            }
            let glyph = &self.glyphs[i];
            if glyph.range.start <= range.start && range.end <= glyph.range.end {
                proof {
                    assert(gs[i as int].spec_contains(qs, qe));
                }
                return Some(glyph);
            }
            proof {
                assert(!gs[i as int].spec_contains(qs, qe));
                assert(gs.skip(i as int).drop_first() =~= gs.skip(i + 1));
            }
            i += 1;
        }
        proof {
            assert(gs.skip(n as int).len() == 0);
        }
        None
    }
}

/// Finds the first fragment one of whose glyph runs contains `[start, end)`:
/// the fragment's index and the run's index within it.
pub open spec fn spec_lookup(frags: Seq<SplitText>, start: int, end: int) -> Option<(int, int)>
    decreases frags.len(),
{
    if frags.len() == 0 {
        None
    } else {
        match spec_find_glyph(frags[0].glyphs.deep_view(), start, end) {
            Some(j) => Some((0int, j)),
            None => match spec_lookup(frags.drop_first(), start, end) {
                Some((i, j)) => Some((i + 1, j)),
                None => None,
            },
        }
    }
}

/// TextArea is a box that stores each appended text with its style.
#[derive(Debug)]
pub struct TextArea(pub Vec<SplitText>);

/// The paragraph-global byte offset where the next fragment would begin.
pub open spec fn spec_last_end(frags: Seq<SplitText>) -> int {
    if frags.len() == 0 {
        0
    } else {
        frags.last().range.end as int
    }
}

/// The in-order concatenation of all fragment texts.
pub open spec fn spec_concat_texts(frags: Seq<SplitText>) -> Seq<char>
    decreases frags.len(),
{
    if frags.len() == 0 {
        Seq::empty()
    } else {
        spec_concat_texts(frags.drop_last()) + frags.last().text@
    }
}

/// Appending a fragment appends its text to the paragraph.  With
/// [`TextArea::as_string`]'s contract this states that the concatenated text
/// equals the in-order concatenation of all appended text arguments.
pub proof fn lemma_concat_texts_push(frags: Seq<SplitText>, st: SplitText)
    ensures
        spec_concat_texts(frags.push(st)) == spec_concat_texts(frags) + st.text@,
{
    assert(frags.push(st).drop_last() =~= frags);
    assert(frags.push(st).last() == st);
}

/// Each fragment's text resolves: every character has a covering tier.
pub open spec fn frag_resolvable(st: SplitText, parent: Font, fallback: Seq<Font>) -> bool {
    all_resolvable(st.text@, st.font, parent, fallback)
}

/// `new_st` is `old_st` with the glyph runs of one resolution pass appended.
pub open spec fn frag_resolves_to(
    old_st: SplitText,
    new_st: SplitText,
    parent: Font,
    fallback: Seq<Font>,
) -> bool {
    &&& new_st.text == old_st.text
    &&& new_st.style == old_st.style
    &&& new_st.font == old_st.font
    &&& new_st.range == old_st.range
    &&& new_st.glyphs.deep_view() == old_st.glyphs.deep_view() + spec_runs(
        old_st.text@,
        old_st.range.start as int,
        old_st.font,
        parent,
        fallback,
    )
}

/// Resolution stopped at fragment `k`: everything before it resolved,
/// nothing from it on was touched.
pub open spec fn partial_resolved(
    old_frags: Seq<SplitText>,
    new_frags: Seq<SplitText>,
    k: int,
    parent: Font,
    fallback: Seq<Font>,
) -> bool {
    &&& 0 <= k < old_frags.len()
    &&& new_frags.len() == old_frags.len()
    &&& !frag_resolvable(old_frags[k], parent, fallback)
    &&& forall|i: int|
        0 <= i < k ==> frag_resolvable(#[trigger] old_frags[i], parent, fallback)
            && frag_resolves_to(old_frags[i], new_frags[i], parent, fallback)
    &&& forall|i: int| k <= i < old_frags.len() ==> #[trigger] new_frags[i] == old_frags[i]
}

impl TextArea {
    /// Fragments carry correct byte ranges: each as long as its text, all
    /// contiguous, starting at zero.
    pub open spec fn wf(self) -> bool {
        &&& forall|i: int| 0 <= i < self.0@.len() ==> (#[trigger] self.0@[i]).wf()
        &&& self.0@.len() > 0 ==> self.0@[0].range.start == 0
        &&& forall|i: int|
            1 <= i < self.0@.len() ==> (#[trigger] self.0@[i]).range.start == self.0@[i
                - 1].range.end
    }

    pub fn new() -> (r: TextArea)
        ensures
            r.0@.len() == 0,
            r.wf(),
    {
        TextArea(Vec::new())
    }
}

} // verus!

verus! {

/// The byte length of a string under this module's width model.
pub fn text_byte_len(s: &str) -> (r: usize)
    requires
        text_bytes(s@) <= usize::MAX,
    ensures
        r == text_bytes(s@),
{
    let n = s.unicode_len();
    let mut acc: usize = 0;
    let mut i: usize = 0;
    while i < n
        invariant
            n == s@.len(),
            i <= n,
            text_bytes(s@) <= usize::MAX,
            acc == text_bytes(s@.take(i as int)),
        decreases n - i,
    {
        proof {
            lemma_text_bytes_take_succ(s@, i as int);
            lemma_text_bytes_split(s@, i + 1);
            lemma_text_bytes_nonneg(s@.skip(i + 1));
        }
        let c = s.get_char(i);
        let w = char_utf8_width(c);
        acc = acc + w;
        i += 1;
    }
    proof {
        assert(s@.take(n as int) =~= s@);
    }
    acc
}

impl TextArea {
    /// Push text with style.  Parses the optional font data; fails with
    /// `InvalidFontBytes`, changing nothing, exactly on malformed data.  The
    /// new fragment begins right after the prior end.
    pub fn push(&mut self, text: &str, style: crate::style::Style, font: Option<Vec<u8>>) -> (r:
        Result<(), Error>)
        requires
            spec_last_end(old(self).0@) + text_bytes(text@) <= usize::MAX,
        ensures
            match r {
                Ok(()) => {
                    &&& (match font {
                        Some(data) => crate::font::spec_font_data_ok(data@),
                        None => true,
                    })
                    &&& final(self).0@.len() == old(self).0@.len() + 1
                    &&& forall|i: int|
                        0 <= i < old(self).0@.len() ==> final(self).0@[i] == old(self).0@[i]
                    &&& final(self).0@.last().text@ == text@
                    &&& final(self).0@.last().style == Some(style)
                    &&& (match font {
                        Some(data) => match final(self).0@.last().font {
                            Some(f) => f.ranges@ == crate::font::spec_ranges_of_bytes(data@),
                            None => false,
                        },
                        None => final(self).0@.last().font is None,
                    })
                    &&& final(self).0@.last().range.start == spec_last_end(old(self).0@)
                    &&& final(self).0@.last().range.end == spec_last_end(old(self).0@)
                        + text_bytes(text@)
                    &&& final(self).0@.last().glyphs@.len() == 0
                    &&& old(self).wf() ==> final(self).wf()
                },
                Err(e) => {
                    &&& e == Error::InvalidFontBytes
                    &&& (match font {
                        Some(data) => !crate::font::spec_font_data_ok(data@),
                        None => false,
                    })
                    &&& *final(self) == *old(self)
                },
            },
    {
        let last_range_end: usize = if self.0.len() == 0 {
            0
        } else {
            self.0[self.0.len() - 1].range.end
        };
        proof {
            assert(last_range_end as int == spec_last_end(self.0@));
            lemma_text_bytes_nonneg(text@);
        }
        let font = match font {
            Some(data) => Some(
                match Font::try_from_vec(data) {
                    Some(f) => f,
                    None => {
                        return Err(Error::InvalidFontBytes);
                    },
                },
            ),
            None => None,
        };
        let byte_len = text_byte_len(text);
        let split_text = SplitText {
            text: text.to_owned(),
            style: Some(style),
            font,
            range: ByteRange { start: last_range_end, end: last_range_end + byte_len },
            glyphs: Vec::new(),
        };
        let ghost before = self.0@;
        self.0.push(split_text);
        proof {
            assert(self.0@.last().wf());
            if before.len() > 0 {
                assert(self.0@[before.len() as int - 1] == before.last());
            }
        }
        Ok(())
    }

    /// Push text without style; it inherits the parent style at render time.
    pub fn push_text(&mut self, text: &str)
        requires
            spec_last_end(old(self).0@) + text_bytes(text@) <= usize::MAX,
        ensures
            final(self).0@.len() == old(self).0@.len() + 1,
            forall|i: int| 0 <= i < old(self).0@.len() ==> final(self).0@[i] == old(self).0@[i],
            final(self).0@.last().text@ == text@,
            final(self).0@.last().style is None,
            final(self).0@.last().font is None,
            final(self).0@.last().range.start == spec_last_end(old(self).0@),
            final(self).0@.last().range.end == spec_last_end(old(self).0@) + text_bytes(text@),
            final(self).0@.last().glyphs@.len() == 0,
            old(self).wf() ==> final(self).wf(),
    {
        let last_range_end: usize = if self.0.len() == 0 {
            0
        } else {
            self.0[self.0.len() - 1].range.end
        };
        proof {
            assert(last_range_end as int == spec_last_end(self.0@));
            lemma_text_bytes_nonneg(text@);
        }
        let byte_len = text_byte_len(text);
        let split_text = SplitText {
            text: text.to_owned(),
            style: None,
            font: None,
            range: ByteRange { start: last_range_end, end: last_range_end + byte_len },
            glyphs: Vec::new(),
        };
        let ghost before = self.0@;
        self.0.push(split_text);
        proof {
            assert(self.0@.last().wf());
            if before.len() > 0 {
                assert(self.0@[before.len() as int - 1] == before.last());
            }
        }
    }

    /// Append plus immediate resolution against `font` as the parent: used
    /// for single-fragment paragraphs.  Fails, changing nothing, exactly when
    /// some character has no covering tier.
    pub fn push_text_with_glyphs(
        &mut self,
        text: &str,
        font: &Font,
        font_context: &FontContext,
    ) -> (r: Result<(), Error>)
        requires
            spec_last_end(old(self).0@) + text_bytes(text@) <= usize::MAX,
        ensures
            match r {
                Ok(()) => {
                    &&& all_resolvable(text@, None, *font, font_context.fonts@)
                    &&& final(self).0@.len() == old(self).0@.len() + 1
                    &&& forall|i: int|
                        0 <= i < old(self).0@.len() ==> final(self).0@[i] == old(self).0@[i]
                    &&& final(self).0@.last().text@ == text@
                    &&& final(self).0@.last().style is None
                    &&& final(self).0@.last().font is None
                    &&& final(self).0@.last().range.start == spec_last_end(old(self).0@)
                    &&& final(self).0@.last().range.end == spec_last_end(old(self).0@)
                        + text_bytes(text@)
                    &&& final(self).0@.last().glyphs.deep_view() == spec_runs(
                        text@,
                        spec_last_end(old(self).0@),
                        None,
                        *font,
                        font_context.fonts@,
                    )
                    &&& old(self).wf() ==> final(self).wf()
                },
                Err(e) => {
                    &&& e == Error::NotFoundSpecifiedFontFamily
                    &&& !all_resolvable(text@, None, *font, font_context.fonts@)
                    &&& *final(self) == *old(self)
                },
            },
    {
        let last_range_end: usize = if self.0.len() == 0 {
            0
        } else {
            self.0[self.0.len() - 1].range.end
        };
        proof {
            assert(last_range_end as int == spec_last_end(self.0@));
            lemma_text_bytes_nonneg(text@);
        }
        let byte_len = text_byte_len(text);
        let mut split_text = SplitText {
            text: text.to_owned(),
            style: None,
            font: None,
            range: ByteRange { start: last_range_end, end: last_range_end + byte_len },
            glyphs: Vec::new(),
        };
        let mut current_range_start: usize = last_range_end;
        match split_text.set_glyphs(font, &mut current_range_start, font_context) {
            Ok(()) => {},
            Err(e) => {
                return Err(e);
            },
        }
        let ghost before = self.0@;
        self.0.push(split_text);
        proof {
            assert(self.0@.last().glyphs.deep_view() =~= spec_runs(
                text@,
                last_range_end as int,
                None,
                *font,
                font_context.fonts@,
            ));
            assert(self.0@.last().wf());
            if before.len() > 0 {
                assert(self.0@[before.len() as int - 1] == before.last());
            }
        }
        Ok(())
    }

    /// The full paragraph text, fragments concatenated in order.
    pub fn as_string(&self) -> (r: String)
        ensures
            r@ == spec_concat_texts(self.0@),
    {
        let mut text = String::new();
        let n = self.0.len();
        let mut i: usize = 0;
        while i < n
            invariant
                n == self.0@.len(),
                i <= n,
                text@ == spec_concat_texts(self.0@.take(i as int)),
            decreases n - i,
        {
            text.append(self.0[i].text.as_str());
            proof {
                assert(self.0@.take(i + 1).drop_last() =~= self.0@.take(i as int));
                assert(self.0@.take(i + 1).last() == self.0@[i as int]);
            }
            i += 1;
        }
        proof {
            assert(self.0@.take(n as int) =~= self.0@);
        }
        text
    }

    /// Returns the fragment and the run whose range fully contains the
    /// requested range, scanning fragments then runs in order; both `None`
    /// when the range straddles a boundary or lies outside all runs.
    pub fn get_glyphs_from_char_range(&self, range: ByteRange) -> (r: (
        Option<&SplitText>,
        Option<&Glyph>,
    ))
        ensures
            match spec_lookup(self.0@, range.start as int, range.end as int) {
                Some((i, j)) => {
                    &&& (match r.0 {
                        Some(st) => *st == self.0@[i],
                        None => false,
                    })
                    &&& (match r.1 {
                        Some(g) => g@ == self.0@[i].glyphs.deep_view()[j],
                        None => false,
                    })
                },
                None => r.0 is None && r.1 is None,
            },
    {
        let ghost qs = range.start as int;
        let ghost qe = range.end as int;
        let n = self.0.len();
        let mut i: usize = 0;
        proof {
            assert(self.0@.skip(0) =~= self.0@);
        }
        while i < n
            invariant
                n == self.0@.len(),
                i <= n,
                qs == range.start as int,
                qe == range.end as int,
                spec_lookup(self.0@, qs, qe) == match spec_lookup(self.0@.skip(i as int), qs, qe) {
                    Some((f, j)) => Some((f + i, j)),
                    None => None::<(int, int)>,
                },
            decreases n - i,
        {
            proof {
                assert(self.0@.skip(i as int)[0] == self.0@[i as int]);
            }
            let split_text = &self.0[i];
            let glyph = split_text.get_glyphs_from_char_range(range);
            if let Some(g) = glyph {
                proof {
                    lemma_find_glyph_bounds(self.0@[i as int].glyphs.deep_view(), qs, qe);
                    let j = spec_find_glyph(self.0@[i as int].glyphs.deep_view(), qs, qe).unwrap();
                    assert(self.0@[i as int].glyphs.deep_view()[j] == self.0@[i as int].glyphs@[j]@);
                }
                return (Some(split_text), Some(g));
            }
            proof {
                assert(self.0@.skip(i as int).drop_first() =~= self.0@.skip(i + 1));
            }
            i += 1;
        }
        proof {
            assert(self.0@.skip(n as int).len() == 0);
        }
        (None, None)
    }
}

} // verus!

verus! {

impl TextArea {
    /// Runs fragment resolution over every fragment in order, threading one
    /// paragraph-wide cursor across fragment boundaries.  Fails at the first
    /// fragment holding a character with no covering tier; fragments before
    /// it keep their new runs, it and those after it stay untouched.
    pub fn set_glyphs(&mut self, parent_font: &Font, font_context: &FontContext) -> (r: Result<
        (),
        Error,
    >)
        requires
            old(self).wf(),
        ensures
            final(self).wf(),
            final(self).0@.len() == old(self).0@.len(),
            match r {
                Ok(()) => {
                    forall|i: int|
                        0 <= i < old(self).0@.len() ==> frag_resolvable(
                            #[trigger] old(self).0@[i],
                            *parent_font,
                            font_context.fonts@,
                        ) && frag_resolves_to(
                            old(self).0@[i],
                            final(self).0@[i],
                            *parent_font,
                            font_context.fonts@,
                        )
                },
                Err(e) => {
                    &&& e == Error::NotFoundSpecifiedFontFamily
                    &&& exists|k: int|
                        partial_resolved(
                            old(self).0@,
                            final(self).0@,
                            k,
                            *parent_font,
                            font_context.fonts@,
                        )
                },
            },
    {
        let ghost oldf = self.0@;
        let ghost pf = *parent_font;
        let ghost fb = font_context.fonts@;
        let mut current_range_start: usize = 0;
        let mut done: Vec<SplitText> = Vec::new();
        while self.0.len() > 0
            invariant
                old(self).wf(),
                oldf == old(self).0@,
                pf == *parent_font,
                fb == font_context.fonts@,
                done@.len() + self.0@.len() == oldf.len(),
                self.0@ == oldf.skip(done@.len() as int),
                forall|i: int|
                    0 <= i < done@.len() ==> frag_resolvable(#[trigger] oldf[i], pf, fb)
                        && frag_resolves_to(oldf[i], done@[i], pf, fb),
                done@.len() < oldf.len() ==> current_range_start == oldf[done@.len() as int].range.start,
            decreases self.0@.len(),
        {
            let ghost k = done@.len() as int;
            let mut st = self.0.remove(0);
            proof {
                assert(oldf.skip(k)[0] == oldf[k]);
                assert(st == oldf[k]);
                assert(oldf[k].wf());
                lemma_text_bytes_nonneg(st.text@);
            }
            match st.set_glyphs(parent_font, &mut current_range_start, font_context) {
                Ok(()) => {
                    done.push(st);
                    proof {
                        assert(self.0@ =~= oldf.skip(k + 1));
                        assert(frag_resolves_to(oldf[k], done@[k], pf, fb));
                        if k + 1 < oldf.len() {
                            assert(oldf[k + 1].range.start == oldf[k].range.end);
                        }
                    }
                },
                Err(e) => {
                    let ghost resolved = done@;
                    done.push(st);
                    done.append(&mut self.0);
                    self.0 = done;
                    proof {
                        assert(self.0@ =~= resolved + seq![oldf[k]] + oldf.skip(k + 1));
                        assert forall|i: int| k <= i < oldf.len() implies #[trigger] self.0@[i]
                            == oldf[i] by {
                            if i > k {
                                assert(self.0@[i] == oldf.skip(k + 1)[i - k - 1]);
                            }
                        }
                        assert(partial_resolved(oldf, self.0@, k, pf, fb));
                        assert forall|i: int| 0 <= i < self.0@.len() implies (
                        #[trigger] self.0@[i]).wf() by {
                            if i < k {
                                assert(frag_resolves_to(oldf[i], self.0@[i], pf, fb));
                            }
                            assert(oldf[i].wf());
                        }
                        assert forall|i: int| 1 <= i < self.0@.len() implies (
                        #[trigger] self.0@[i]).range.start == self.0@[i - 1].range.end by {
                            if i - 1 < k {
                                assert(frag_resolves_to(oldf[i - 1], self.0@[i - 1], pf, fb));
                            }
                            if i < k {
                                assert(frag_resolves_to(oldf[i], self.0@[i], pf, fb));
                            }
                        }
                        if self.0@.len() > 0 {
                            if 0 < k {
                                assert(frag_resolves_to(oldf[0], self.0@[0], pf, fb));
                            }
                        }
                    }
                    return Err(e);
                },
            }
        }
        proof {
            assert(oldf.skip(oldf.len() as int).len() == 0);
        }
        self.0 = done;
        proof {
            assert forall|i: int| 0 <= i < self.0@.len() implies (#[trigger] self.0@[i]).wf() by {
                assert(frag_resolves_to(oldf[i], self.0@[i], pf, fb));
                assert(oldf[i].wf());
            }
            assert forall|i: int| 1 <= i < self.0@.len() implies (#[trigger] self.0@[i]).range.start
                == self.0@[i - 1].range.end by {
                assert(frag_resolves_to(oldf[i], self.0@[i], pf, fb));
                assert(frag_resolves_to(oldf[i - 1], self.0@[i - 1], pf, fb));
            }
            if self.0@.len() > 0 {
                assert(frag_resolves_to(oldf[0], self.0@[0], pf, fb));
            }
        }
        Ok(())
    }

    /// Looks up the run covering the requested range and measures `ch` with
    /// the font that run records: the shared table's font for a Global tier,
    /// the caller's default for Parent, the fragment's own for Child.  The
    /// font size comes from the fragment's style if present, else from the
    /// supplied default style.
    pub fn char_extents(
        &self,
        ch: char,
        parent_font: &Font,
        range: ByteRange,
        style: &crate::style::Style,
        context: &crate::context::Context,
        font_context: &FontContext,
    ) -> (r: Result<crate::context::FontMetrics, Error>)
        ensures
            match spec_lookup(self.0@, range.start as int, range.end as int) {
                None => r == Err::<crate::context::FontMetrics, Error>(Error::OutOfRangeText),
                Some((i, j)) => {
                    let st = self.0@[i];
                    let g = st.glyphs.deep_view()[j];
                    let size = (match st.style {
                        Some(s) => s.font_size,
                        None => style.font_size,
                    });
                    match g.store {
                        FontIndexStore::Global(idx) => {
                            if (idx.0 as int) < font_context.fonts@.len() {
                                r == Ok::<crate::context::FontMetrics, Error>(
                                    (crate::context::FontMetrics {
                                        width: size as u64,
                                        height: size,
                                    }),
                                )
                            } else {
                                r == Err::<crate::context::FontMetrics, Error>(
                                    Error::NotFoundSpecifiedFontFamily,
                                )
                            }
                        },
                        FontIndexStore::Parent(_) => r == Ok::<crate::context::FontMetrics, Error>(
                            (crate::context::FontMetrics { width: size as u64, height: size }),
                        ),
                        FontIndexStore::Child(_) => match st.font {
                            Some(_) => r == Ok::<crate::context::FontMetrics, Error>(
                                (crate::context::FontMetrics { width: size as u64, height: size }),
                            ),
                            None => r == Err::<crate::context::FontMetrics, Error>(
                                Error::NotFoundSpecifiedFontFamily,
                            ),
                        },
                    }
                },
            },
    {
        match self.get_glyphs_from_char_range(range) {
            (Some(split_text), Some(glyph)) => {
                let font_size = match &split_text.style {
                    Some(s) => s.font_size,
                    None => style.font_size,
                };
                match &glyph.font_index_store {
                    FontIndexStore::Global(idx) => match font_context.borrow_font(*idx) {
                        Some(font) => Ok(context.char_extents(ch, font_size, font)),
                        None => Err(Error::NotFoundSpecifiedFontFamily),
                    },
                    FontIndexStore::Parent(_) => Ok(
                        context.char_extents(ch, font_size, parent_font),
                    ),
                    FontIndexStore::Child(_) => match &split_text.font {
                        Some(font) => Ok(context.char_extents(ch, font_size, font)),
                        None => Err(Error::NotFoundSpecifiedFontFamily),
                    },
                }
            },
            _ => Err(Error::OutOfRangeText),
        }
    }
}

} // verus!

verus! {

/// Partition and maximality of the runs behind an open run `[run_start, e)`:
/// every run nonempty, runs adjacent and within `[run_start, e +
/// text_bytes(s)]`, the first starting at `run_start` with tier `t` and
/// reaching at least `e`, the last ending at `e + text_bytes(s)`, and no two
/// adjacent runs sharing a tier.
pub proof fn lemma_runs_open_partition(
    s: Seq<char>,
    e: int,
    run_start: int,
    t: FontIndexStore,
    child: Option<Font>,
    parent: Font,
    fallback: Seq<Font>,
)
    requires
        run_start < e,
    ensures
        ({
            let runs = spec_runs_open(s, e, run_start, t, child, parent, fallback);
            &&& runs.len() >= 1
            &&& runs[0].start == run_start
            &&& runs[0].store == t
            &&& runs[0].end >= e
            &&& runs.last().end == e + text_bytes(s)
            &&& forall|j: int| 0 <= j < runs.len() ==> (#[trigger] runs[j]).start < runs[j].end
            &&& forall|j: int|
                0 <= j < runs.len() ==> run_start <= (#[trigger] runs[j]).start && runs[j].end <= e
                    + text_bytes(s)
            &&& forall|j: int|
                0 <= j < runs.len() - 1 ==> (#[trigger] runs[j]).end == runs[j + 1].start
            &&& forall|j: int|
                0 <= j < runs.len() - 1 ==> (#[trigger] runs[j]).store != runs[j + 1].store
        }),
    decreases s.len(), 1int,
{
    let runs = spec_runs_open(s, e, run_start, t, child, parent, fallback);
    if s.len() == 0 {
    } else if spec_tier_or(child, parent, fallback, s[0]) == t {
        lemma_runs_open_partition(
            s.drop_first(),
            e + char_width(s[0]),
            run_start,
            t,
            child,
            parent,
            fallback,
        );
        assert(text_bytes(s) == char_width(s[0]) + text_bytes(s.drop_first()));
    } else {
        lemma_runs_partition(s, e, child, parent, fallback);
        let rest = spec_runs(s, e, child, parent, fallback);
        lemma_text_bytes_nonneg(s);
        assert(runs == seq![GlyphModel { start: run_start, end: e, store: t }] + rest);
        assert(runs[0] == (GlyphModel { start: run_start, end: e, store: t }));
        assert(forall|j: int| 1 <= j < runs.len() ==> #[trigger] runs[j] == rest[j - 1]);
        assert(runs.last() == rest.last());
        assert(rest[0].store == spec_tier_or(child, parent, fallback, s[0]));
    }
}

/// Partition and maximality of the runs of a text starting at `pos`; empty
/// texts produce no runs, the first run carries the first character's tier.
pub proof fn lemma_runs_partition(
    s: Seq<char>,
    pos: int,
    child: Option<Font>,
    parent: Font,
    fallback: Seq<Font>,
)
    ensures
        ({
            let runs = spec_runs(s, pos, child, parent, fallback);
            &&& (runs.len() == 0 <==> s.len() == 0)
            &&& s.len() > 0 ==> runs[0].start == pos && runs[0].store == spec_tier_or(
                child,
                parent,
                fallback,
                s[0],
            )
            &&& s.len() > 0 ==> runs.last().end == pos + text_bytes(s)
            &&& forall|j: int| 0 <= j < runs.len() ==> (#[trigger] runs[j]).start < runs[j].end
            &&& forall|j: int|
                0 <= j < runs.len() ==> pos <= (#[trigger] runs[j]).start && runs[j].end <= pos
                    + text_bytes(s)
            &&& forall|j: int|
                0 <= j < runs.len() - 1 ==> (#[trigger] runs[j]).end == runs[j + 1].start
            &&& forall|j: int|
                0 <= j < runs.len() - 1 ==> (#[trigger] runs[j]).store != runs[j + 1].store
        }),
    decreases s.len(), 0int,
{
    if s.len() > 0 {
        lemma_runs_open_partition(
            s.drop_first(),
            pos + char_width(s[0]),
            pos,
            spec_tier_or(child, parent, fallback, s[0]),
            child,
            parent,
            fallback,
        );
        assert(text_bytes(s) == char_width(s[0]) + text_bytes(s.drop_first()));
    }
}

/// Resolution is deterministic: two fragments equal in text and font resolve,
/// against the same parent font and fallback table, to the same runs.
pub proof fn lemma_resolution_deterministic(
    a: SplitText,
    b: SplitText,
    pos: int,
    parent: Font,
    fallback: Seq<Font>,
)
    requires
        a.text@ == b.text@,
        a.font == b.font,
    ensures
        spec_runs(a.text@, pos, a.font, parent, fallback) == spec_runs(
            b.text@,
            pos,
            b.font,
            parent,
            fallback,
        ),
{
}

} // verus!

verus! {

/// The character at index `j` of a text consumed behind an open run
/// `[run_start, e)` lands inside some run of the result: its bytes, starting
/// at `e + text_bytes(s.take(j))`, are contained in one run.
pub proof fn lemma_runs_open_cover_at(
    s: Seq<char>,
    e: int,
    run_start: int,
    t: FontIndexStore,
    child: Option<Font>,
    parent: Font,
    fallback: Seq<Font>,
    j: int,
)
    requires
        run_start < e,
        0 <= j < s.len(),
    ensures
        ({
            let runs = spec_runs_open(s, e, run_start, t, child, parent, fallback);
            exists|k: int|
                0 <= k < runs.len() && (#[trigger] runs[k]).spec_contains(
                    e + text_bytes(s.take(j)),
                    e + text_bytes(s.take(j)) + char_width(s[j]),
                ) && runs[k].store == spec_tier_or(child, parent, fallback, s[j])
        }),
    decreases s.len(), 1int,
{
    let runs = spec_runs_open(s, e, run_start, t, child, parent, fallback);
    if spec_tier_or(child, parent, fallback, s[0]) == t {
        let d = s.drop_first();
        let e2 = e + char_width(s[0]);
        lemma_runs_open_partition(d, e2, run_start, t, child, parent, fallback);
        if j == 0 {
            assert(s.take(0).len() == 0);
            if d.len() == 0 {
                assert(runs[0].spec_contains(e, e + char_width(s[0])));
            } else {
                assert(runs[0].spec_contains(e, e + char_width(s[0])));
            }
        } else {
            lemma_runs_open_cover_at(d, e2, run_start, t, child, parent, fallback, j - 1);
            assert(s.take(j).drop_first() =~= d.take(j - 1));
            assert(s.take(j)[0] == s[0]);
            assert(text_bytes(s.take(j)) == char_width(s[0]) + text_bytes(d.take(j - 1)));
            assert(s[j] == d[j - 1]);
            let k = choose|k: int|
                0 <= k < runs.len() && (#[trigger] runs[k]).spec_contains(
                    e2 + text_bytes(d.take(j - 1)),
                    e2 + text_bytes(d.take(j - 1)) + char_width(d[j - 1]),
                ) && runs[k].store == spec_tier_or(child, parent, fallback, d[j - 1]);
            assert(runs[k].spec_contains(
                e + text_bytes(s.take(j)),
                e + text_bytes(s.take(j)) + char_width(s[j]),
            ) && runs[k].store == spec_tier_or(child, parent, fallback, s[j]));
        }
    } else {
        let rest = spec_runs(s, e, child, parent, fallback);
        lemma_runs_cover_at(s, e, child, parent, fallback, j);
        let k = choose|k: int|
            0 <= k < rest.len() && (#[trigger] rest[k]).spec_contains(
                e + text_bytes(s.take(j)),
                e + text_bytes(s.take(j)) + char_width(s[j]),
            ) && rest[k].store == spec_tier_or(child, parent, fallback, s[j]);
        assert(runs[k + 1] == rest[k]);
        assert(runs[k + 1].spec_contains(
            e + text_bytes(s.take(j)),
            e + text_bytes(s.take(j)) + char_width(s[j]),
        ) && runs[k + 1].store == spec_tier_or(child, parent, fallback, s[j]));
    }
}

/// Every character of a resolved text lands inside some of its runs: the
/// glyph runs leave no gap, stated per character index.
pub proof fn lemma_runs_cover_at(
    s: Seq<char>,
    pos: int,
    child: Option<Font>,
    parent: Font,
    fallback: Seq<Font>,
    j: int,
)
    requires
        0 <= j < s.len(),
    ensures
        ({
            let runs = spec_runs(s, pos, child, parent, fallback);
            exists|k: int|
                0 <= k < runs.len() && (#[trigger] runs[k]).spec_contains(
                    pos + text_bytes(s.take(j)),
                    pos + text_bytes(s.take(j)) + char_width(s[j]),
                ) && runs[k].store == spec_tier_or(child, parent, fallback, s[j])
        }),
    decreases s.len(), 0int,
{
    let runs = spec_runs(s, pos, child, parent, fallback);
    let d = s.drop_first();
    let t0 = spec_tier_or(child, parent, fallback, s[0]);
    let e2 = pos + char_width(s[0]);
    lemma_runs_open_partition(d, e2, pos, t0, child, parent, fallback);
    if j == 0 {
        assert(s.take(0).len() == 0);
        assert(runs[0].spec_contains(pos, pos + char_width(s[0])));
    } else {
        lemma_runs_open_cover_at(d, e2, pos, t0, child, parent, fallback, j - 1);
        assert(s.take(j).drop_first() =~= d.take(j - 1));
        assert(s.take(j)[0] == s[0]);
        assert(text_bytes(s.take(j)) == char_width(s[0]) + text_bytes(d.take(j - 1)));
        assert(s[j] == d[j - 1]);
        let k = choose|k: int|
            0 <= k < runs.len() && (#[trigger] runs[k]).spec_contains(
                e2 + text_bytes(d.take(j - 1)),
                e2 + text_bytes(d.take(j - 1)) + char_width(d[j - 1]),
            ) && runs[k].store == spec_tier_or(child, parent, fallback, d[j - 1]);
        assert(runs[k].spec_contains(
            pos + text_bytes(s.take(j)),
            pos + text_bytes(s.take(j)) + char_width(s[j]),
        ) && runs[k].store == spec_tier_or(child, parent, fallback, s[j]));
    }
}

/// A TextArea whose fragments carry exactly the runs of one resolution pass
/// from empty, against this parent font and fallback table.
pub open spec fn resolved_from(ta: TextArea, parent: Font, fallback: Seq<Font>) -> bool {
    forall|i: int|
        0 <= i < ta.0@.len() ==> (#[trigger] ta.0@[i]).glyphs.deep_view() == spec_runs(
            ta.0@[i].text@,
            ta.0@[i].range.start as int,
            ta.0@[i].font,
            parent,
            fallback,
        )
}

pub proof fn lemma_lookup_some_of_frag(frags: Seq<SplitText>, start: int, end: int, i: int)
    requires
        0 <= i < frags.len(),
        spec_find_glyph(frags[i].glyphs.deep_view(), start, end).is_some(),
    ensures
        spec_lookup(frags, start, end).is_some(),
    decreases frags.len(),
{
    if i > 0 && spec_find_glyph(frags[0].glyphs.deep_view(), start, end).is_none() {
        assert(frags.drop_first()[i - 1] == frags[i]);
        lemma_lookup_some_of_frag(frags.drop_first(), start, end, i - 1);
    }
}

pub proof fn lemma_lookup_none(frags: Seq<SplitText>, start: int, end: int)
    requires
        forall|i: int|
            0 <= i < frags.len() ==> spec_find_glyph(
                (#[trigger] frags[i]).glyphs.deep_view(),
                start,
                end,
            ).is_none(),
    ensures
        spec_lookup(frags, start, end).is_none(),
    decreases frags.len(),
{
    if frags.len() > 0 {
        assert(forall|i: int| 0 <= i < frags.drop_first().len() ==> #[trigger] frags.drop_first()[i]
            == frags[i + 1]);
        lemma_lookup_none(frags.drop_first(), start, end);
    }
}

/// Fragment byte ranges grow along the paragraph.
pub proof fn lemma_range_monotone(ta: TextArea, a: int, b: int)
    requires
        ta.wf(),
        0 <= a <= b < ta.0@.len(),
    ensures
        ta.0@[a].range.end <= ta.0@[b].range.end,
        a < b ==> ta.0@[a].range.end <= ta.0@[b].range.start,
    decreases b - a,
{
    if a < b {
        lemma_range_monotone(ta, a, b - 1);
        assert(ta.0@[b].range.start == ta.0@[b - 1].range.end);
        assert(ta.0@[b].wf());
        lemma_text_bytes_nonneg(ta.0@[b].text@);
    }
}

/// Lookup succeeds for every in-range character of a resolved TextArea: the
/// byte range of character `j` of fragment `i` is found in some run.
pub proof fn lemma_lookup_in_range_char(
    ta: TextArea,
    parent: Font,
    fallback: Seq<Font>,
    i: int,
    j: int,
)
    requires
        ta.wf(),
        resolved_from(ta, parent, fallback),
        0 <= i < ta.0@.len(),
        0 <= j < ta.0@[i].text@.len(),
    ensures
        ({
            let st = ta.0@[i];
            let cs = st.range.start + text_bytes(st.text@.take(j));
            spec_lookup(ta.0@, cs, cs + char_width(st.text@[j])).is_some()
        }),
{
    let st = ta.0@[i];
    let cs = st.range.start + text_bytes(st.text@.take(j));
    let ce = cs + char_width(st.text@[j]);
    lemma_runs_cover_at(st.text@, st.range.start as int, st.font, parent, fallback, j);
    assert(st.glyphs.deep_view() == spec_runs(
        st.text@,
        st.range.start as int,
        st.font,
        parent,
        fallback,
    ));
    lemma_find_glyph_some_iff(st.glyphs.deep_view(), cs, ce);
    lemma_lookup_some_of_frag(ta.0@, cs, ce, i);
}

/// A range that crosses a fragment boundary is found nowhere: lookup of a
/// range that starts before fragment `b` ends and ends after it returns
/// nothing.
pub proof fn lemma_lookup_crossing(
    ta: TextArea,
    parent: Font,
    fallback: Seq<Font>,
    start: int,
    end: int,
    b: int,
)
    requires
        ta.wf(),
        resolved_from(ta, parent, fallback),
        0 <= b < ta.0@.len(),
        start < ta.0@[b].range.end,
        ta.0@[b].range.end < end,
    ensures
        spec_lookup(ta.0@, start, end).is_none(),
{
    assert forall|i: int| 0 <= i < ta.0@.len() implies spec_find_glyph(
        (#[trigger] ta.0@[i]).glyphs.deep_view(),
        start,
        end,
    ).is_none() by {
        let st = ta.0@[i];
        assert(st.wf());
        lemma_runs_partition(st.text@, st.range.start as int, st.font, parent, fallback);
        lemma_find_glyph_some_iff(st.glyphs.deep_view(), start, end);
        let runs = st.glyphs.deep_view();
        assert forall|k: int| 0 <= k < runs.len() implies !(#[trigger] runs[k]).spec_contains(
            start,
            end,
        ) by {
            if i <= b {
                lemma_range_monotone(ta, i, b);
                assert(runs[k].end <= st.range.end);
            } else {
                lemma_range_monotone(ta, b, i);
                assert(runs[k].start >= st.range.start);
            }
        }
    }
    lemma_lookup_none(ta.0@, start, end);
}

} // verus!

verus! {

/// Finds the first fragment whose byte range fully contains `[start, end)`.
pub open spec fn spec_frag_locate(frags: Seq<SplitText>, start: int, end: int) -> Option<int>
    decreases frags.len(),
{
    if frags.len() == 0 {
        None
    } else if frags[0].range.spec_contains(start, end) {
        Some(0int)
    } else {
        match spec_frag_locate(frags.drop_first(), start, end) {
            Some(i) => Some(i + 1),
            None => None,
        }
    }
}

pub proof fn lemma_frag_locate_bounds(frags: Seq<SplitText>, start: int, end: int)
    ensures
        match spec_frag_locate(frags, start, end) {
            Some(i) => 0 <= i < frags.len() && frags[i].range.spec_contains(start, end),
            None => true,
        },
    decreases frags.len(),
{
    if frags.len() > 0 && !frags[0].range.spec_contains(start, end) {
        lemma_frag_locate_bounds(frags.drop_first(), start, end);
    }
}

impl TextArea {
    /// Returns the index of the first fragment whose byte range fully
    /// contains the requested range; `None` when the range straddles a
    /// fragment boundary or lies outside the paragraph.
    pub fn get_split_text_from_char_range(&self, range: ByteRange) -> (r: Option<usize>)
        ensures
            match spec_frag_locate(self.0@, range.start as int, range.end as int) {
                Some(i) => r == Some(i as usize),
                None => r is None,
            },
    {
        let ghost qs = range.start as int;
        let ghost qe = range.end as int;
        let n = self.0.len();
        let mut i: usize = 0;
        proof {
            assert(self.0@.skip(0) =~= self.0@);
        }
        while i < n
            invariant
                n == self.0@.len(),
                i <= n,
                qs == range.start as int,
                qe == range.end as int,
                spec_frag_locate(self.0@, qs, qe) == match spec_frag_locate(
                    self.0@.skip(i as int),
                    qs,
                    qe,
                ) {
                    Some(k) => Some(k + i),
                    None => None::<int>,
                },
            decreases n - i,
        {
            proof {
                assert(self.0@.skip(i as int)[0] == self.0@[i as int]);
            }
            let st = &self.0[i];
            if st.range.start <= range.start && range.end <= st.range.end {
                return Some(i);
            }
            proof {
                assert(self.0@.skip(i as int).drop_first() =~= self.0@.skip(i + 1));
            }
            i += 1;
        }
        proof {
            assert(self.0@.skip(n as int).len() == 0);
        }
        None
    }
}

} // verus!

verus! {

/// Fragment sequences equal in their texts concatenate to the same text.
pub proof fn lemma_concat_texts_equal(a: Seq<SplitText>, b: Seq<SplitText>)
    requires
        a.len() == b.len(),
        forall|i: int| 0 <= i < a.len() ==> (#[trigger] a[i]).text@ == b[i].text@,
    ensures
        spec_concat_texts(a) == spec_concat_texts(b),
    decreases a.len(),
{
    if a.len() > 0 {
        assert(forall|i: int| 0 <= i < a.drop_last().len() ==> #[trigger] a.drop_last()[i]
            == a[i]);
        assert(forall|i: int| 0 <= i < b.drop_last().len() ==> #[trigger] b.drop_last()[i]
            == b[i]);
        lemma_concat_texts_equal(a.drop_last(), b.drop_last());
        assert(a.last().text@ == b.last().text@);
    }
}

} // verus!

verus! {

/// For every resolved TextArea, each fragment's glyph runs exactly partition
/// its byte range — in order, no gap, no overlap — and adjacent runs never
/// share a tier.
pub proof fn lemma_resolved_fragment_partition(
    ta: TextArea,
    parent: Font,
    fallback: Seq<Font>,
    i: int,
)
    requires
        ta.wf(),
        resolved_from(ta, parent, fallback),
        0 <= i < ta.0@.len(),
    ensures
        ({
            let st = ta.0@[i];
            let runs = st.glyphs.deep_view();
            &&& (runs.len() == 0 <==> st.text@.len() == 0)
            &&& runs.len() > 0 ==> runs[0].start == st.range.start && runs.last().end
                == st.range.end
            &&& forall|j: int| 0 <= j < runs.len() ==> (#[trigger] runs[j]).start < runs[j].end
            &&& forall|j: int|
                0 <= j < runs.len() - 1 ==> (#[trigger] runs[j]).end == runs[j + 1].start
            &&& forall|j: int|
                0 <= j < runs.len() - 1 ==> (#[trigger] runs[j]).store != runs[j + 1].store
        }),
{
    let st = ta.0@[i];
    assert(st.wf());
    lemma_runs_partition(st.text@, st.range.start as int, st.font, parent, fallback);
}

} // verus!

verus! {

/// The fragment's own font wins: a character its child font covers resolves
/// to the Child tier, and the run containing its bytes carries that tier,
/// even where the parent font or a fallback of the shared table also covers
/// it.
pub proof fn lemma_child_font_priority(
    s: Seq<char>,
    pos: int,
    child: Font,
    parent: Font,
    fallback: Seq<Font>,
    j: int,
)
    requires
        0 <= j < s.len(),
        child.spec_covers(s[j]),
    ensures
        spec_tier(Some(child), parent, fallback, s[j]) == Some(
            FontIndexStore::Child(FontIndex(0)),
        ),
        ({
            let runs = spec_runs(s, pos, Some(child), parent, fallback);
            exists|k: int|
                0 <= k < runs.len() && (#[trigger] runs[k]).spec_contains(
                    pos + text_bytes(s.take(j)),
                    pos + text_bytes(s.take(j)) + char_width(s[j]),
                ) && runs[k].store == FontIndexStore::Child(FontIndex(0))
        }),
{
    lemma_runs_cover_at(s, pos, Some(child), parent, fallback, j);
    let runs = spec_runs(s, pos, Some(child), parent, fallback);
    let k = choose|k: int|
        0 <= k < runs.len() && (#[trigger] runs[k]).spec_contains(
            pos + text_bytes(s.take(j)),
            pos + text_bytes(s.take(j)) + char_width(s[j]),
        ) && runs[k].store == spec_tier_or(Some(child), parent, fallback, s[j]);
    assert(runs[k].spec_contains(
        pos + text_bytes(s.take(j)),
        pos + text_bytes(s.take(j)) + char_width(s[j]),
    ) && runs[k].store == FontIndexStore::Child(FontIndex(0)));
}

} // verus!
