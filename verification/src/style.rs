//! Styled text: colours, span styles, and lines of styled spans.
use vstd::prelude::*;
use crate::text::{chars_of, is_whitespace, is_ws, string_of_range};

verus! {

/// A terminal colour.
#[derive(Clone, Copy, PartialEq, Eq, Structural, Debug)]
pub enum Color {
    Black,
    DarkGrey,
    Red,
    Green,
    Yellow,
    Blue,
    Magenta,
    Cyan,
    White,
    Grey,
    Rgb { r: u8, g: u8, b: u8 },
}

/// How a span of text is drawn.
#[derive(Debug)]
pub struct Style {
    pub fg: Option<Color>,
    pub bg: Option<Color>,
    pub bold: bool,
    pub italic: bool,
    pub underline: bool,
    pub strikethrough: bool,
    pub dim: bool,
    /// Target of a hyperlink drawn with this style.
    pub link_url: Option<String>,
}

impl Style {
    pub open spec fn fg_spec(color: Color) -> Style {
        Style {
            fg: Some(color),
            bg: None,
            bold: false,
            italic: false,
            underline: false,
            strikethrough: false,
            dim: false,
            link_url: None,
        }
    }

    /// A style with only a foreground colour.
    pub fn fg(color: Color) -> (r: Style)
        ensures
            r == Style::fg_spec(color),
    {
        Style {
            fg: Some(color),
            bg: None,
            bold: false,
            italic: false,
            underline: false,
            strikethrough: false,
            dim: false,
            link_url: None,
        }
    }

    /// A style with the given colours and no other attribute.
    pub fn colors(fg: Option<Color>, bg: Option<Color>) -> (r: Style)
        ensures
            r.fg == fg,
            r.bg == bg,
            !r.bold && !r.italic && !r.underline && !r.strikethrough && !r.dim,
            r.link_url is None,
    {
        Style {
            fg,
            bg,
            bold: false,
            italic: false,
            underline: false,
            strikethrough: false,
            dim: false,
            link_url: None,
        }
    }
}

impl Default for Style {
    fn default() -> (r: Style)
        ensures
            r.fg is None,
            r.bg is None,
            !r.bold && !r.italic && !r.underline && !r.strikethrough && !r.dim,
            r.link_url is None,
    {
        Style::colors(None, None)
    }
}

impl Clone for Style {
    fn clone(&self) -> (r: Style)
        ensures
            r == *self,
    {
        Style {
            fg: self.fg,
            bg: self.bg,
            bold: self.bold,
            italic: self.italic,
            underline: self.underline,
            strikethrough: self.strikethrough,
            dim: self.dim,
            link_url: match &self.link_url {
                Some(u) => Some(u.clone()),
                None => None,
            },
        }
    }
}

/// A run of text drawn in one style.
#[derive(Debug)]
pub struct StyledSpan {
    pub text: String,
    pub style: Style,
}

impl Clone for StyledSpan {
    fn clone(&self) -> (r: StyledSpan)
        ensures
            r == *self,
    {
        StyledSpan { text: self.text.clone(), style: self.style.clone() }
    }
}

/// One line of output.
#[derive(Debug)]
pub struct Line {
    pub spans: Vec<StyledSpan>,
}

/// The text of a list of spans, one after another.
pub open spec fn spans_text(spans: Seq<StyledSpan>) -> Seq<char>
    decreases spans.len(),
{
    if spans.len() == 0 {
        Seq::empty()
    } else {
        spans_text(spans.drop_last()) + spans.last().text@
    }
}

/// The text of a list of lines, one after another.
pub open spec fn lines_text(lines: Seq<Line>) -> Seq<char>
    decreases lines.len(),
{
    if lines.len() == 0 {
        Seq::empty()
    } else {
        lines_text(lines.drop_last()) + spans_text(lines.last().spans@)
    }
}

/// The characters of a text that are not whitespace.
pub open spec fn visible(s: Seq<char>) -> Seq<char> {
    s.filter(|c: char| !is_ws(c))
}

impl Line {
    pub fn empty() -> (r: Line)
        ensures
            r.spans@.len() == 0,
    {
        Line { spans: Vec::new() }
    }

    /// Number of characters on the line.
    pub fn display_width(&self) -> (w: usize)
        ensures
            w == if spans_text(self.spans@).len() <= usize::MAX {
                spans_text(self.spans@).len() as int
            } else {
                usize::MAX as int
            },
    {
        let mut w: usize = 0;
        let mut i: usize = 0;
        while i < self.spans.len()
            invariant
                i <= self.spans@.len(),
                w == if spans_text(self.spans@.subrange(0, i as int)).len() <= usize::MAX {
                    spans_text(self.spans@.subrange(0, i as int)).len() as int
                } else {
                    usize::MAX as int
                },
            decreases self.spans@.len() - i,
        {
            let n = chars_of(self.spans[i].text.as_str()).len();
            proof {
                let sub = self.spans@.subrange(0, i + 1);
                assert(sub.drop_last() =~= self.spans@.subrange(0, i as int));
                assert(sub.last() == self.spans@[i as int]);
            }
            w = w.saturating_add(n);
            i = i + 1;
        }
        proof {
            assert(self.spans@.subrange(0, self.spans@.len() as int) =~= self.spans@);
        }
        w
    }
}

impl Clone for Line {
    fn clone(&self) -> (r: Line)
        ensures
            r.spans@ == self.spans@,
    {
        let mut spans: Vec<StyledSpan> = Vec::new();
        let mut i: usize = 0;
        while i < self.spans.len()
            invariant
                i <= self.spans@.len(),
                spans@ == self.spans@.subrange(0, i as int),
            decreases self.spans@.len() - i,
        {
            spans.push(self.spans[i].clone());
            i = i + 1;
            proof {
                assert(spans@ =~= self.spans@.subrange(0, i as int));
            }
        }
        proof {
            assert(spans@ =~= self.spans@);
        }
        Line { spans }
    }
}

proof fn lemma_spans_text_push(spans: Seq<StyledSpan>, s: StyledSpan)
    ensures
        spans_text(spans.push(s)) == spans_text(spans) + s.text@,
{
    assert(spans.push(s).drop_last() =~= spans);
}

proof fn lemma_lines_text_push(lines: Seq<Line>, l: Line)
    ensures
        lines_text(lines.push(l)) == lines_text(lines) + spans_text(l.spans@),
{
    assert(lines.push(l).drop_last() =~= lines);
}

proof fn lemma_visible_add(a: Seq<char>, b: Seq<char>)
    ensures
        visible(a + b) == visible(a) + visible(b),
{
    Seq::filter_distributes_over_add(a, b, |c: char| !is_ws(c));
}

proof fn lemma_visible_all_ws(a: Seq<char>)
    requires
        forall|i: int| 0 <= i < a.len() ==> is_ws(#[trigger] a[i]),
    ensures
        visible(a) == Seq::<char>::empty(),
    decreases a.len(),
{
    reveal_with_fuel(Seq::filter, 1);
    if a.len() > 0 {
        lemma_visible_all_ws(a.drop_last());
        assert(a.drop_last() + seq![a.last()] =~= a);
        lemma_visible_add(a.drop_last(), seq![a.last()]);
        assert(visible(seq![a.last()]) =~= Seq::<char>::empty()) by {
            reveal_with_fuel(Seq::filter, 2);
            assert(seq![a.last()].drop_last() =~= Seq::<char>::empty());
        }
    } else {
        assert(visible(a) =~= Seq::<char>::empty());
    }
}

/// A span as values: its text and style.
pub open spec fn span_piece(sp: StyledSpan) -> (Seq<char>, Style) {
    (sp.text@, sp.style)
}

pub open spec fn span_pieces(sps: Seq<StyledSpan>) -> Seq<(Seq<char>, Style)> {
    sps.map_values(|sp: StyledSpan| span_piece(sp))
}

/// Lines as values: the pieces of each.
pub open spec fn line_pieces(ls: Seq<Line>) -> Seq<Seq<(Seq<char>, Style)>> {
    ls.map_values(|l: Line| span_pieces(l.spans@))
}

/// The end of the run of characters of `t` from `j` on that are whitespace
/// exactly when `ws` is.
pub open spec fn run_end(t: Seq<char>, j: int, ws: bool) -> int
    decreases t.len() - j,
{
    if 0 <= j < t.len() && is_ws(t[j]) == ws {
        run_end(t, j + 1, ws)
    } else {
        j
    }
}

pub proof fn lemma_run_end_ge(t: Seq<char>, j: int, ws: bool)
    ensures
        run_end(t, j, ws) >= j,
        j <= t.len() ==> run_end(t, j, ws) <= t.len(),
    decreases t.len() - j,
{
    if 0 <= j < t.len() && is_ws(t[j]) == ws {
        lemma_run_end_ge(t, j + 1, ws);
    }
}

/// The runs of whitespace and of other characters of `t` from `i` on, each
/// with style `st`.
pub open spec fn text_runs(t: Seq<char>, st: Style, i: int) -> Seq<(Seq<char>, Style)>
    decreases t.len() - i,
{
    if 0 <= i < t.len() {
        let e = run_end(t, i + 1, is_ws(t[i]));
        proof {
            lemma_run_end_ge(t, i + 1, is_ws(t[i]));
            assert(t.len() - e < t.len() - i);
        }
        seq![(t.subrange(i, e), st)] + text_runs(t, st, e)
    } else {
        Seq::empty()
    }
}

/// The runs of every span, in order.
pub open spec fn line_runs(sps: Seq<StyledSpan>) -> Seq<(Seq<char>, Style)>
    decreases sps.len(),
{
    if sps.len() == 0 {
        Seq::empty()
    } else {
        line_runs(sps.drop_last()) + text_runs(sps.last().text@, sps.last().style, 0)
    }
}

/// Wrapping state: the finished lines, the line being built and its width
/// so far.
pub open spec fn all_ws(t: Seq<char>) -> bool {
    forall|i: int| 0 <= i < t.len() ==> is_ws(#[trigger] t[i])
}

/// A word longer than the line from character `i` on, cut into pieces as
/// wide as the room left.
pub open spec fn chunked(
    s: (Seq<Seq<(Seq<char>, Style)>>, Seq<(Seq<char>, Style)>, int),
    seg: (Seq<char>, Style),
    width: int,
    i: int,
) -> (Seq<Seq<(Seq<char>, Style)>>, Seq<(Seq<char>, Style)>, int)
    decreases seg.0.len() - i,
{
    let n = seg.0.len() as int;
    if 0 <= i < n {
        let take = if width - s.2 < n - i { width - s.2 } else { n - i };
        if take > 0 {
            let cur = s.1.push((seg.0.subrange(i, i + take), seg.1));
            let col = s.2 + take;
            let s2 = if col >= width && i + take < n {
                (s.0.push(cur), Seq::empty(), 0)
            } else {
                (s.0, cur, col)
            };
            chunked(s2, seg, width, i + take)
        } else {
            s
        }
    } else {
        s
    }
}

/// One run placed on the lines being wrapped: a word that does not fit
/// breaks the line (dropping the whitespace at its end), whitespace at the
/// start of a continuation line is dropped, a word wider than a line is cut.
pub open spec fn wrap_run(
    s: (Seq<Seq<(Seq<char>, Style)>>, Seq<(Seq<char>, Style)>, int),
    seg: (Seq<char>, Style),
    width: int,
) -> (Seq<Seq<(Seq<char>, Style)>>, Seq<(Seq<char>, Style)>, int) {
    let w = seg.0.len() as int;
    let ws = w > 0 && is_ws(seg.0[0]);
    let s1 = if !ws && (if s.2 + w <= usize::MAX { s.2 + w } else { usize::MAX as int }) > width && s.2 > 0 {
        let cur = if s.1.len() > 0 && all_ws(s.1.last().0) {
            s.1.drop_last()
        } else {
            s.1
        };
        (s.0.push(cur), Seq::empty(), 0)
    } else {
        s
    };
    if s1.2 == 0 && ws && s1.0.len() > 0 {
        s1
    } else if !ws && w > width && s1.2 == 0 {
        chunked(s1, seg, width, 0)
    } else {
        (s1.0, s1.1.push(seg), if s1.2 + w <= usize::MAX { s1.2 + w } else { usize::MAX as int })
    }
}

/// The state after the first `k` runs.
pub open spec fn wrap_upto(segs: Seq<(Seq<char>, Style)>, width: int, k: int) -> (Seq<Seq<(Seq<char>, Style)>>, Seq<(Seq<char>, Style)>, int)
    decreases k,
{
    if k <= 0 {
        (Seq::empty(), Seq::empty(), 0)
    } else {
        wrap_run(wrap_upto(segs, width, k - 1), segs[k - 1], width)
    }
}

/// The lines a line wraps to: the wrapped runs, the last line kept if it
/// has anything, and one empty line when nothing is left.
pub open spec fn wrapped_pieces(sps: Seq<StyledSpan>, width: int) -> Seq<Seq<(Seq<char>, Style)>> {
    let segs = line_runs(sps);
    let s = wrap_upto(segs, width, segs.len() as int);
    let ls = if s.1.len() > 0 {
        s.0.push(s.1)
    } else {
        s.0
    };
    if ls.len() == 0 {
        seq![Seq::empty()]
    } else {
        ls
    }
}

/// What a line becomes: itself when it fits or `width` is 0, else its
/// wrapped lines.
pub open spec fn line_wrapped(l: Line, width: int) -> Seq<Seq<(Seq<char>, Style)>> {
    let shown = if spans_text(l.spans@).len() <= usize::MAX { spans_text(l.spans@).len() as int } else { usize::MAX as int };
    if width == 0 || l.spans@.len() == 0 || shown <= width {
        seq![span_pieces(l.spans@)]
    } else {
        wrapped_pieces(l.spans@, width)
    }
}

/// The first `k` lines wrapped, one after another.
pub open spec fn lines_wrapped(ls: Seq<Line>, width: int, k: int) -> Seq<Seq<(Seq<char>, Style)>>
    decreases k,
{
    if k <= 0 {
        Seq::empty()
    } else {
        lines_wrapped(ls, width, k - 1) + line_wrapped(ls[k - 1], width)
    }
}

/// A piece of a line: non-empty, and all whitespace or none.
pub open spec fn is_segment(s: StyledSpan) -> bool {
    &&& s.text@.len() > 0
    &&& (forall|i: int| 0 <= i < s.text@.len() ==> is_ws(#[trigger] s.text@[i]))
        || (forall|i: int| 0 <= i < s.text@.len() ==> !is_ws(#[trigger] s.text@[i]))
}

/// Splits a line's spans into runs of whitespace and of other characters,
/// each keeping its span's style.
fn segments_of(line: &Line) -> (segs: Vec<StyledSpan>)
    ensures
        spans_text(segs@) == spans_text(line.spans@),
        forall|k: int| 0 <= k < segs@.len() ==> is_segment(#[trigger] segs@[k]),
        span_pieces(segs@) == line_runs(line.spans@),
{
    let mut segs: Vec<StyledSpan> = Vec::new();
    let mut k: usize = 0;
    proof {
        assert(span_pieces(segs@) =~= line_runs(line.spans@.subrange(0, 0)));
    }
    while k < line.spans.len()
        invariant
            k <= line.spans@.len(),
            spans_text(segs@) == spans_text(line.spans@.subrange(0, k as int)),
            forall|x: int| 0 <= x < segs@.len() ==> is_segment(#[trigger] segs@[x]),
            span_pieces(segs@) == line_runs(line.spans@.subrange(0, k as int)),
        decreases line.spans@.len() - k,
    {
        let span = &line.spans[k];
        let chars = chars_of(span.text.as_str());
        let ghost base = spans_text(segs@);
        let ghost p0 = span_pieces(segs@);
        let mut i: usize = 0;
        while i < chars.len()
            invariant
                i <= chars@.len(),
                chars@ == span.text@,
                spans_text(segs@) == base + chars@.subrange(0, i as int),
                forall|x: int| 0 <= x < segs@.len() ==> is_segment(#[trigger] segs@[x]),
                span_pieces(segs@) + text_runs(chars@, span.style, i as int) == p0 + text_runs(chars@, span.style, 0),
            decreases chars@.len() - i,
        {
            let ws = is_whitespace(chars[i]);
            let mut j = i;
            while j < chars.len() && is_whitespace(chars[j]) == ws
                invariant
                    i <= j <= chars@.len(),
                    i < chars@.len(),
                    ws == is_ws(chars@[i as int]),
                    forall|x: int| i <= x < j ==> is_ws(#[trigger] chars@[x]) == ws,
                    run_end(chars@, j as int, ws) == run_end(chars@, i as int, ws),
                decreases chars@.len() - j,
            {
                j = j + 1;
            }
            proof {
                assert(run_end(chars@, i as int, ws) == run_end(chars@, i + 1, ws));
                assert(j == run_end(chars@, i + 1, ws));
            }
            let seg = StyledSpan { text: string_of_range(&chars, i, j), style: span.style.clone() };
            proof {
                assert(j > i);
                assert(is_segment(seg)) by {
                    if ws {
                        assert forall|x: int| 0 <= x < seg.text@.len() implies is_ws(#[trigger] seg.text@[x]) by {
                            assert(seg.text@[x] == chars@[i + x]);
                        }
                    } else {
                        assert forall|x: int| 0 <= x < seg.text@.len() implies !is_ws(#[trigger] seg.text@[x]) by {
                            assert(seg.text@[x] == chars@[i + x]);
                        }
                    }
                }
                lemma_spans_text_push(segs@, seg);
            }
            let ghost pb = span_pieces(segs@);
            segs.push(seg);
            proof {
                assert(chars@.subrange(0, i as int) + chars@.subrange(i as int, j as int) =~= chars@.subrange(0, j as int));
                assert(span_pieces(segs@) =~= pb.push((chars@.subrange(i as int, j as int), span.style)));
                assert(text_runs(chars@, span.style, i as int) == seq![(chars@.subrange(i as int, j as int), span.style)] + text_runs(chars@, span.style, j as int));
                assert(pb.push((chars@.subrange(i as int, j as int), span.style)) + text_runs(chars@, span.style, j as int) =~= pb + text_runs(chars@, span.style, i as int));
            }
            i = j;
        }
        proof {
            let sub = line.spans@.subrange(0, k + 1);
            assert(sub.drop_last() =~= line.spans@.subrange(0, k as int));
            assert(sub.last() == line.spans@[k as int]);
            assert(chars@.subrange(0, chars@.len() as int) =~= chars@);
            assert(span_pieces(segs@) + Seq::<(Seq<char>, Style)>::empty() =~= span_pieces(segs@));
        }
        k = k + 1;
    }
    proof {
        assert(line.spans@.subrange(0, line.spans@.len() as int) =~= line.spans@);
    }
    segs
}

fn all_whitespace(s: &String) -> (b: bool)
    ensures
        b == forall|i: int| 0 <= i < s@.len() ==> is_ws(#[trigger] s@[i]),
{
    let chars = chars_of(s.as_str());
    let mut i: usize = 0;
    while i < chars.len()
        invariant
            chars@ == s@,
            i <= chars@.len(),
            forall|x: int| 0 <= x < i ==> is_ws(#[trigger] chars@[x]),
        decreases chars@.len() - i,
    {
        if !is_whitespace(chars[i]) {
            return false;
        }
        i = i + 1;
    }
    true
}

fn take_spans(v: &mut Vec<StyledSpan>) -> (r: Vec<StyledSpan>)
    ensures
        r@ == old(v)@,
        final(v)@.len() == 0,
{
    let mut r: Vec<StyledSpan> = Vec::new();
    std::mem::swap(&mut r, v);
    r
}

/// Wraps one line to `width` columns at word boundaries: whitespace where a
/// line breaks is dropped, and a word longer than the width is cut into
/// pieces of the full width.
fn word_wrap(line: &Line, width: usize) -> (out: Vec<Line>)
    requires
        width > 0,
    ensures
        out@.len() > 0,
        visible(lines_text(out@)) == visible(spans_text(line.spans@)),
        line_pieces(out@) == wrapped_pieces(line.spans@, width as int),
        width < usize::MAX ==> forall|i: int| 0 <= i < out@.len() ==> trimmed_len(#[trigger] line_pieces(out@)[i]) <= width,
{
    let segments = segments_of(line);
    let ghost sp = span_pieces(segments@);
    let mut lines: Vec<Line> = Vec::new();
    let mut current: Vec<StyledSpan> = Vec::new();
    let mut col: usize = 0;
    let mut k: usize = 0;
    proof {
        assert(segments@.subrange(0, 0) =~= Seq::<StyledSpan>::empty());
        assert(lines_text(lines@) + spans_text(current@) =~= Seq::<char>::empty());
        assert(line_pieces(lines@) =~= Seq::<Seq<(Seq<char>, Style)>>::empty());
        assert(span_pieces(current@) =~= Seq::<(Seq<char>, Style)>::empty());
    }
    while k < segments.len()
        invariant
            width > 0,
            k <= segments@.len(),
            forall|x: int| 0 <= x < segments@.len() ==> is_segment(#[trigger] segments@[x]),
            visible(lines_text(lines@) + spans_text(current@)) == visible(spans_text(segments@.subrange(0, k as int))),
            sp == span_pieces(segments@),
            (line_pieces(lines@), span_pieces(current@), col as int) == wrap_upto(sp, width as int, k as int),
        decreases segments@.len() - k,
    {
        let seg = &segments[k];
        let ghost s0 = (line_pieces(lines@), span_pieces(current@), col as int);
        let ghost segp = (seg.text@, seg.style);
        proof {
            assert(sp[k as int] == segp);
            assert(wrap_upto(sp, width as int, k + 1) == wrap_run(s0, segp, width as int));
        }
        let ghost before = spans_text(segments@.subrange(0, k as int));
        proof {
            let sub = segments@.subrange(0, k + 1);
            assert(sub.drop_last() =~= segments@.subrange(0, k as int));
            assert(sub.last() == segments@[k as int]);
            assert(spans_text(sub) == before + seg.text@);
            lemma_visible_add(before, seg.text@);
            assert(is_segment(*seg));
        }
        let seg_chars = chars_of(seg.text.as_str());
        let seg_width = seg_chars.len();
        let is_ws_seg = seg_width > 0 && is_whitespace(seg_chars[0]);
        proof {
            if is_ws_seg {
                assert(is_ws(seg.text@[0]));
                assert(forall|i: int| 0 <= i < seg.text@.len() ==> is_ws(#[trigger] seg.text@[i]));
                lemma_visible_all_ws(seg.text@);
            }
        }
        if !is_ws_seg && col.saturating_add(seg_width) > width && col > 0 {
            if current.len() > 0 {
                let last = current.len() - 1;
                if all_whitespace(&current[last].text) {
                    let ghost c0 = current@;
                    current.pop();
                    proof {
                        assert(c0.drop_last() =~= current@);
                        assert(span_pieces(current@) =~= span_pieces(c0).drop_last());
                        assert(all_ws(span_pieces(c0).last().0));
                        lemma_visible_all_ws(c0.last().text@);
                        lemma_visible_add(lines_text(lines@), spans_text(current@));
                        lemma_visible_add(spans_text(current@), c0.last().text@);
                        lemma_visible_add(lines_text(lines@), spans_text(c0));
                        assert(visible(spans_text(current@)) + Seq::<char>::empty() =~= visible(spans_text(current@)));
                    }
                }
            }
            let taken = take_spans(&mut current);
            proof {
                lemma_lines_text_push(lines@, Line { spans: taken });
                assert(spans_text(current@) =~= Seq::<char>::empty());
                assert(lines_text(lines@) + spans_text(taken@) + Seq::<char>::empty() =~= lines_text(lines@) + spans_text(taken@));
            }
            let ghost lp0 = line_pieces(lines@);
            lines.push(Line { spans: taken });
            col = 0;
            proof {
                assert(line_pieces(lines@) =~= lp0.push(span_pieces(taken@)));
                assert(span_pieces(current@) =~= Seq::<(Seq<char>, Style)>::empty());
            }
        }
        let ghost s1 = (line_pieces(lines@), span_pieces(current@), col as int);
        if col == 0 && is_ws_seg && lines.len() > 0 {
            proof {
                lemma_visible_add(lines_text(lines@) + spans_text(current@), Seq::<char>::empty());
                assert(visible(before + seg.text@) == visible(before) + visible(seg.text@));
                assert(visible(before) + Seq::<char>::empty() =~= visible(before));
            }
            k = k + 1;
            continue;
        }
        if !is_ws_seg && seg_width > width && col == 0 {
            let mut i: usize = 0;
            let ghost out0 = lines_text(lines@) + spans_text(current@);
            proof {
                assert(wrap_run(s0, segp, width as int) == chunked(s1, segp, width as int, 0));
            }
            while i < seg_width
                invariant
                    width > 0,
                    seg_chars@ == seg.text@,
                    seg_width == seg_chars@.len(),
                    i <= seg_width,
                    col <= width,
                    i < seg_width ==> col < width,
                    lines_text(lines@) + spans_text(current@) == out0 + seg_chars@.subrange(0, i as int),
                    segp == (seg.text@, seg.style),
                    chunked((line_pieces(lines@), span_pieces(current@), col as int), segp, width as int, i as int) == chunked(s1, segp, width as int, 0),
                decreases seg_width - i,
            {
                let ghost si = (line_pieces(lines@), span_pieces(current@), col as int);
                let avail = width - col;
                let take = if avail < seg_width - i {
                    avail
                } else {
                    seg_width - i
                };
                let chunk = StyledSpan { text: string_of_range(&seg_chars, i, i + take), style: seg.style.clone() };
                let ghost c0 = current@;
                proof {
                    assert(span_pieces(c0.push(chunk)) =~= span_pieces(c0).push((segp.0.subrange(i as int, i + take), segp.1)));
                }
                proof {
                    lemma_spans_text_push(current@, chunk);
                    assert(seg_chars@.subrange(0, i as int) + seg_chars@.subrange(i as int, i + take) =~= seg_chars@.subrange(0, i + take));
                }
                current.push(chunk);
                proof {
                    assert(spans_text(current@) == spans_text(c0) + chunk.text@);
                    assert(lines_text(lines@) + spans_text(current@) =~= (lines_text(lines@) + spans_text(c0)) + chunk.text@);
                    assert(lines_text(lines@) + spans_text(current@) =~= out0 + seg_chars@.subrange(0, i + take));
                }
                col = col + take;
                i = i + take;
                if col >= width && i < seg_width {
                    let taken = take_spans(&mut current);
                    proof {
                        lemma_lines_text_push(lines@, Line { spans: taken });
                        assert(spans_text(current@) =~= Seq::<char>::empty());
                        assert(lines_text(lines@) + spans_text(taken@) + Seq::<char>::empty() =~= lines_text(lines@) + spans_text(taken@));
                    }
                    let ghost lp0 = line_pieces(lines@);
                    lines.push(Line { spans: taken });
                    col = 0;
                    proof {
                        assert(line_pieces(lines@) =~= lp0.push(span_pieces(taken@)));
                        assert(span_pieces(current@) =~= Seq::<(Seq<char>, Style)>::empty());
                    }
                }
            }
            proof {
                assert(chunked((line_pieces(lines@), span_pieces(current@), col as int), segp, width as int, i as int) == (line_pieces(lines@), span_pieces(current@), col as int));
            }
            proof {
                assert(seg_chars@.subrange(0, seg_width as int) =~= seg_chars@);
                lemma_visible_add(out0, seg.text@);
            }
            k = k + 1;
            continue;
        }
        col = col.saturating_add(seg_width);
        let piece = seg.clone();
        proof {
            assert(span_pieces(current@.push(piece)) =~= span_pieces(current@).push(segp));
        }
        proof {
            lemma_spans_text_push(current@, piece);
            assert(lines_text(lines@) + (spans_text(current@) + seg.text@) =~= (lines_text(lines@) + spans_text(current@)) + seg.text@);
            lemma_visible_add(lines_text(lines@) + spans_text(current@), seg.text@);
        }
        current.push(piece);
        k = k + 1;
    }
    proof {
        assert(segments@.subrange(0, segments@.len() as int) =~= segments@);
    }
    let ghost sfin = (line_pieces(lines@), span_pieces(current@), col as int);
    if current.len() > 0 {
        proof {
            lemma_lines_text_push(lines@, Line { spans: current });
        }
        let ghost lp0 = line_pieces(lines@);
        let ghost cp = span_pieces(current@);
        lines.push(Line { spans: current });
        proof {
            assert(line_pieces(lines@) =~= lp0.push(cp));
        }
    } else {
        proof {
            assert(spans_text(current@) =~= Seq::<char>::empty());
            assert(lines_text(lines@) + Seq::<char>::empty() =~= lines_text(lines@));
        }
    }
    if lines.len() == 0 {
        let e = Line::empty();
        proof {
            lemma_lines_text_push(lines@, e);
            assert(spans_text(e.spans@) =~= Seq::<char>::empty());
            assert(lines_text(lines@) + Seq::<char>::empty() =~= lines_text(lines@));
        }
        let ghost l0 = lines@;
        lines.push(e);
        proof {
            assert(span_pieces(e.spans@) =~= Seq::<(Seq<char>, Style)>::empty());
            assert(l0.len() == 0);
            assert(lines@ =~= seq![e]);
            assert(line_pieces(lines@) =~= seq![Seq::<(Seq<char>, Style)>::empty()]);
        }
    }
    proof {
        if width < usize::MAX {
            lemma_wrapped_pieces_fit(line.spans@, width as int);
        }
    }
    lines
}

/// Wraps every line to `width` columns; a width of 0 leaves the lines as
/// they are. Lines that fit stay whole, empty lines stay empty, and no
/// visible character is lost or moved out of order.
pub fn wrap_lines(lines: &Vec<Line>, width: usize) -> (out: Vec<Line>)
    ensures
        width == 0 ==> out@.len() == lines@.len() && forall|x: int| 0 <= x < lines@.len() ==> (#[trigger] out@[x]).spans@ == lines@[x].spans@,
        out@.len() >= lines@.len(),
        visible(lines_text(out@)) == visible(lines_text(lines@)),
        line_pieces(out@) == lines_wrapped(lines@, width as int, lines@.len() as int),
        0 < width < usize::MAX ==> forall|i: int| 0 <= i < out@.len() ==> trimmed_len(#[trigger] line_pieces(out@)[i]) <= width,
{
    let mut result: Vec<Line> = Vec::new();
    let mut k: usize = 0;
    while k < lines.len()
        invariant
            k <= lines@.len(),
            result@.len() >= k,
            width == 0 ==> result@.len() == k,
            width == 0 ==> forall|x: int| 0 <= x < k ==> (#[trigger] result@[x]).spans@ == lines@[x].spans@,
            visible(lines_text(result@)) == visible(lines_text(lines@.subrange(0, k as int))),
            line_pieces(result@) == lines_wrapped(lines@, width as int, k as int),
        decreases lines@.len() - k,
    {
        let line = &lines[k];
        let ghost r0 = result@;
        proof {
            assert(lines_wrapped(lines@, width as int, k + 1) == line_pieces(r0) + line_wrapped(*line, width as int));
        }
        proof {
            let sub = lines@.subrange(0, k + 1);
            assert(sub.drop_last() =~= lines@.subrange(0, k as int));
            assert(sub.last() == lines@[k as int]);
            lemma_visible_add(lines_text(lines@.subrange(0, k as int)), spans_text(line.spans@));
            lemma_visible_add(lines_text(r0), spans_text(line.spans@));
        }
        if width == 0 {
            let c = line.clone();
            proof {
                lemma_lines_text_push(r0, c);
            }
            result.push(c);
            proof {
                assert(spans_text(c.spans@) == spans_text(line.spans@));
                assert(line_pieces(result@) =~= line_pieces(r0) + seq![span_pieces(line.spans@)]);
            }
        } else if line.spans.len() == 0 {
            let e = Line::empty();
            proof {
                lemma_lines_text_push(r0, e);
                assert(spans_text(e.spans@) =~= Seq::<char>::empty());
                assert(spans_text(line.spans@) =~= Seq::<char>::empty());
            }
            result.push(e);
            proof {
                assert(span_pieces(e.spans@) =~= span_pieces(line.spans@));
                assert(line_pieces(result@) =~= line_pieces(r0) + seq![span_pieces(line.spans@)]);
            }
        } else if line.display_width() <= width {
            let c = line.clone();
            proof {
                lemma_lines_text_push(r0, c);
                assert(spans_text(c.spans@) == spans_text(line.spans@));
            }
            result.push(c);
            proof {
                assert(line_pieces(result@) =~= line_pieces(r0) + seq![span_pieces(line.spans@)]);
            }
        } else {
            let wrapped = word_wrap(line, width);
            let mut j: usize = 0;
            let ghost base = lines_text(r0);
            while j < wrapped.len()
                invariant
                    j <= wrapped@.len(),
                    result@.len() == r0.len() + j,
                    lines_text(result@) == base + lines_text(wrapped@.subrange(0, j as int)),
                    line_pieces(result@) == line_pieces(r0) + line_pieces(wrapped@.subrange(0, j as int)),
                decreases wrapped@.len() - j,
            {
                let ghost rj = result@;
                let c = wrapped[j].clone();
                proof {
                    lemma_lines_text_push(rj, c);
                    assert(spans_text(c.spans@) == spans_text(wrapped@[j as int].spans@));
                }
                result.push(c);
                proof {
                    assert(line_pieces(result@) =~= line_pieces(rj).push(span_pieces(c.spans@)));
                    assert(line_pieces(wrapped@.subrange(0, j + 1)) =~= line_pieces(wrapped@.subrange(0, j as int)).push(span_pieces(wrapped@[j as int].spans@)));
                    assert(line_pieces(result@) =~= line_pieces(r0) + line_pieces(wrapped@.subrange(0, j + 1)));
                    let sub = wrapped@.subrange(0, j + 1);
                    assert(sub.drop_last() =~= wrapped@.subrange(0, j as int));
                    assert(sub.last() == wrapped@[j as int]);
                }
                j = j + 1;
            }
            proof {
                assert(wrapped@.subrange(0, wrapped@.len() as int) =~= wrapped@);
                lemma_visible_add(base, lines_text(wrapped@));
                assert(line_pieces(result@) == line_pieces(r0) + wrapped_pieces(line.spans@, width as int));
            }
        }
        k = k + 1;
    }
    proof {
        assert(lines@.subrange(0, lines@.len() as int) =~= lines@);
    }
    proof {
        if 0 < width < usize::MAX {
            lemma_wrapped_fit(lines@, width as int, lines@.len() as int);
        }
    }
    result
}

// ───── how wide wrapped lines are ─────

/// Chars of a line's pieces.
pub open spec fn pieces_len(p: Seq<(Seq<char>, Style)>) -> int
    decreases p.len(),
{
    if p.len() == 0 {
        0
    } else {
        pieces_len(p.drop_last()) + p.last().0.len()
    }
}

/// Chars of a line's pieces with the trailing pieces of whitespace left
/// out.
pub open spec fn trimmed_len(p: Seq<(Seq<char>, Style)>) -> int
    decreases p.len(),
{
    if p.len() == 0 {
        0
    } else if all_ws(p.last().0) {
        trimmed_len(p.drop_last())
    } else {
        pieces_len(p)
    }
}

proof fn lemma_trimmed_le(p: Seq<(Seq<char>, Style)>)
    ensures
        0 <= trimmed_len(p) <= pieces_len(p),
    decreases p.len(),
{
    if p.len() > 0 {
        lemma_trimmed_le(p.drop_last());
    }
}

/// A wrapping state whose lines, finished or not, fit in `width` once
/// trailing whitespace is left out, and whose column counts the chars of
/// the line being built (up to `usize::MAX`).
pub open spec fn wrap_ok(s: (Seq<Seq<(Seq<char>, Style)>>, Seq<(Seq<char>, Style)>, int), width: int) -> bool {
    &&& forall|i: int| 0 <= i < s.0.len() ==> trimmed_len(#[trigger] s.0[i]) <= width
    &&& trimmed_len(s.1) <= width
    &&& s.2 == if pieces_len(s.1) <= usize::MAX { pieces_len(s.1) } else { usize::MAX as int }
}

proof fn lemma_chunked_ok(
    s: (Seq<Seq<(Seq<char>, Style)>>, Seq<(Seq<char>, Style)>, int),
    seg: (Seq<char>, Style),
    width: int,
    i: int,
)
    requires
        wrap_ok(s, width),
        0 < width < usize::MAX,
        s.2 <= width,
        0 <= i,
    ensures
        wrap_ok(chunked(s, seg, width, i), width),
    decreases seg.0.len() - i,
{
    let n = seg.0.len() as int;
    if 0 <= i < n {
        let take = if width - s.2 < n - i { width - s.2 } else { n - i };
        if take > 0 {
            let piece = (seg.0.subrange(i, i + take), seg.1);
            let cur = s.1.push(piece);
            let col = s.2 + take;
            lemma_trimmed_le(s.1);
            lemma_trimmed_le(cur);
            assert(cur.drop_last() == s.1);
            assert(pieces_len(cur) == pieces_len(s.1) + take);
            assert(pieces_len(s.1) == s.2);
            let s2 = if col >= width && i + take < n {
                (s.0.push(cur), Seq::<(Seq<char>, Style)>::empty(), 0int)
            } else {
                (s.0, cur, col)
            };
            if col >= width && i + take < n {
                assert forall|k: int| 0 <= k < s2.0.len() implies trimmed_len(#[trigger] s2.0[k]) <= width by {
                    if k < s.0.len() {
                        assert(s2.0[k] == s.0[k]);
                    }
                }
                assert(trimmed_len(s2.1) == 0);
                assert(pieces_len(s2.1) == 0);
            }
            assert(wrap_ok(s2, width));
            lemma_chunked_ok(s2, seg, width, i + take);
        }
    }
}

proof fn lemma_wrap_run_ok(
    s: (Seq<Seq<(Seq<char>, Style)>>, Seq<(Seq<char>, Style)>, int),
    seg: (Seq<char>, Style),
    width: int,
)
    requires
        wrap_ok(s, width),
        0 < width < usize::MAX,
        seg.0.len() > 0 && is_ws(seg.0[0]) ==> all_ws(seg.0),
    ensures
        wrap_ok(wrap_run(s, seg, width), width),
{
    let w = seg.0.len() as int;
    let ws = w > 0 && is_ws(seg.0[0]);
    lemma_trimmed_le(s.1);
    let brk = !ws && (if s.2 + w <= usize::MAX { s.2 + w } else { usize::MAX as int }) > width && s.2 > 0;
    let s1 = if brk {
        let cur = if s.1.len() > 0 && all_ws(s.1.last().0) {
            s.1.drop_last()
        } else {
            s.1
        };
        (s.0.push(cur), Seq::<(Seq<char>, Style)>::empty(), 0int)
    } else {
        s
    };
    if brk {
        let cur = if s.1.len() > 0 && all_ws(s.1.last().0) {
            s.1.drop_last()
        } else {
            s.1
        };
        assert(trimmed_len(cur) == trimmed_len(s.1));
        assert forall|k: int| 0 <= k < s1.0.len() implies trimmed_len(#[trigger] s1.0[k]) <= width by {
            if k < s.0.len() {
                assert(s1.0[k] == s.0[k]);
            }
        }
        assert(trimmed_len(s1.1) == 0);
        assert(pieces_len(s1.1) == 0);
    }
    assert(wrap_ok(s1, width));
    if s1.2 == 0 && ws && s1.0.len() > 0 {
    } else if !ws && w > width && s1.2 == 0 {
        lemma_chunked_ok(s1, seg, width, 0);
    } else {
        let cur = s1.1.push(seg);
        assert(cur.drop_last() == s1.1);
        assert(pieces_len(cur) == pieces_len(s1.1) + w);
        lemma_trimmed_le(cur);
        if ws {
            assert(all_ws(cur.last().0));
            assert(trimmed_len(cur) == trimmed_len(s1.1));
        } else {
            lemma_trimmed_le(s1.1);
        }
    }
}

proof fn lemma_run_end_same(t: Seq<char>, j: int, ws: bool, k: int)
    requires
        j <= k < run_end(t, j, ws),
    ensures
        0 <= k < t.len(),
        is_ws(t[k]) == ws,
    decreases k - j,
{
    if k > j {
        lemma_run_end_same(t, j + 1, ws, k);
    }
}

proof fn lemma_text_runs_whole(t: Seq<char>, st: Style, i: int)
    requires
        0 <= i,
    ensures
        forall|k: int| 0 <= k < text_runs(t, st, i).len() ==> {
            let r = #[trigger] text_runs(t, st, i)[k];
            r.0.len() > 0 && is_ws(r.0[0]) ==> all_ws(r.0)
        },
    decreases t.len() - i,
{
    if 0 <= i < t.len() {
        let e = run_end(t, i + 1, is_ws(t[i]));
        lemma_run_end_ge(t, i + 1, is_ws(t[i]));
        lemma_text_runs_whole(t, st, e);
        let first = (t.subrange(i, e), st);
        let rs = text_runs(t, st, i);
        assert(rs == seq![first] + text_runs(t, st, e));
        assert forall|k: int| 0 <= k < rs.len() implies {
            let r = #[trigger] rs[k];
            r.0.len() > 0 && is_ws(r.0[0]) ==> all_ws(r.0)
        } by {
            if k == 0 {
                assert(rs[0] == first);
                assert forall|j: int| 0 <= j < first.0.len() implies is_ws(#[trigger] first.0[j]) == is_ws(t[i]) by {
                    if j > 0 {
                        lemma_run_end_same(t, i + 1, is_ws(t[i]), i + j);
                    }
                }
            } else {
                assert(rs[k] == text_runs(t, st, e)[k - 1]);
            }
        }
    }
}

proof fn lemma_line_runs_whole(sps: Seq<StyledSpan>)
    ensures
        forall|k: int| 0 <= k < line_runs(sps).len() ==> {
            let r = #[trigger] line_runs(sps)[k];
            r.0.len() > 0 && is_ws(r.0[0]) ==> all_ws(r.0)
        },
    decreases sps.len(),
{
    if sps.len() > 0 {
        lemma_line_runs_whole(sps.drop_last());
        lemma_text_runs_whole(sps.last().text@, sps.last().style, 0);
        let a = line_runs(sps.drop_last());
        let b = text_runs(sps.last().text@, sps.last().style, 0);
        assert forall|k: int| 0 <= k < line_runs(sps).len() implies {
            let r = #[trigger] line_runs(sps)[k];
            r.0.len() > 0 && is_ws(r.0[0]) ==> all_ws(r.0)
        } by {
            if k < a.len() {
                assert(line_runs(sps)[k] == a[k]);
            } else {
                assert(line_runs(sps)[k] == b[k - a.len()]);
            }
        }
    }
}

proof fn lemma_wrap_upto_ok(segs: Seq<(Seq<char>, Style)>, width: int, k: int)
    requires
        0 < width < usize::MAX,
        k <= segs.len(),
        forall|j: int| 0 <= j < segs.len() ==> {
            let r = #[trigger] segs[j];
            r.0.len() > 0 && is_ws(r.0[0]) ==> all_ws(r.0)
        },
    ensures
        wrap_ok(wrap_upto(segs, width, k), width),
    decreases k,
{
    if k > 0 {
        lemma_wrap_upto_ok(segs, width, k - 1);
        let r = segs[k - 1];
        lemma_wrap_run_ok(wrap_upto(segs, width, k - 1), r, width);
    } else {
        assert(trimmed_len(Seq::<(Seq<char>, Style)>::empty()) == 0);
        assert(pieces_len(Seq::<(Seq<char>, Style)>::empty()) == 0);
    }
}

proof fn lemma_pieces_text(sps: Seq<StyledSpan>)
    ensures
        pieces_len(span_pieces(sps)) == spans_text(sps).len(),
    decreases sps.len(),
{
    if sps.len() > 0 {
        lemma_pieces_text(sps.drop_last());
        assert(span_pieces(sps).drop_last() =~= span_pieces(sps.drop_last()));
    }
}

proof fn lemma_line_wrapped_fits(l: Line, width: int)
    requires
        0 < width < usize::MAX,
    ensures
        forall|i: int| 0 <= i < line_wrapped(l, width).len() ==> trimmed_len(#[trigger] line_wrapped(l, width)[i]) <= width,
{
    let shown = if spans_text(l.spans@).len() <= usize::MAX { spans_text(l.spans@).len() as int } else { usize::MAX as int };
    if l.spans@.len() == 0 || shown <= width {
        lemma_pieces_text(l.spans@);
        lemma_trimmed_le(span_pieces(l.spans@));
        assert(line_wrapped(l, width)[0] == span_pieces(l.spans@));
    } else {
        lemma_wrapped_pieces_fit(l.spans@, width);
    }
}

proof fn lemma_wrapped_pieces_fit(sps: Seq<StyledSpan>, width: int)
    requires
        0 < width < usize::MAX,
    ensures
        forall|i: int| 0 <= i < wrapped_pieces(sps, width).len() ==> trimmed_len(#[trigger] wrapped_pieces(sps, width)[i]) <= width,
{
    let segs = line_runs(sps);
    lemma_line_runs_whole(sps);
    lemma_wrap_upto_ok(segs, width, segs.len() as int);
    let st = wrap_upto(segs, width, segs.len() as int);
    let ls = if st.1.len() > 0 { st.0.push(st.1) } else { st.0 };
    assert forall|i: int| 0 <= i < ls.len() implies trimmed_len(#[trigger] ls[i]) <= width by {
        if i < st.0.len() {
            assert(ls[i] == st.0[i]);
        }
    }
    if ls.len() == 0 {
        assert(trimmed_len(Seq::<(Seq<char>, Style)>::empty()) == 0);
    }
}

/// Wrapped to a width (neither 0 nor `usize::MAX`), every line fits in it
/// once its trailing whitespace is left out.
pub proof fn lemma_wrapped_fit(ls: Seq<Line>, width: int, k: int)
    requires
        0 < width < usize::MAX,
        0 <= k <= ls.len(),
    ensures
        forall|i: int| 0 <= i < lines_wrapped(ls, width, k).len() ==> trimmed_len(#[trigger] lines_wrapped(ls, width, k)[i]) <= width,
    decreases k,
{
    if k > 0 {
        lemma_wrapped_fit(ls, width, k - 1);
        lemma_line_wrapped_fits(ls[k - 1], width);
        let a = lines_wrapped(ls, width, k - 1);
        let b = line_wrapped(ls[k - 1], width);
        assert forall|i: int| 0 <= i < lines_wrapped(ls, width, k).len() implies trimmed_len(#[trigger] lines_wrapped(ls, width, k)[i]) <= width by {
            if i < a.len() {
                assert(lines_wrapped(ls, width, k)[i] == a[i]);
            } else {
                assert(lines_wrapped(ls, width, k)[i] == b[i - a.len()]);
            }
        }
    }
}

} // verus!
