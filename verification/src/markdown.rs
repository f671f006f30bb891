//! Markdown to styled lines: a renderer that consumes the events of a
//! CommonMark parse (paragraphs, headings, emphasis, quotes, code blocks,
//! lists, links, rules, task markers) and lays them out as lines of styled
//! spans. Code blocks are framed and syntax highlighted.
use vstd::prelude::*;
use crate::style::{Color, Line, Style, StyledSpan};
use crate::text::{chars_of, push_char, string_of, string_of_range, trim, utf8_len, utf8_length};
use crate::viewer::decimal;
use crate::cmark::{cmark_events, parse_md_events};
use crate::json::{lines_v, plain, span_v, spans_v, spans_width, SpanV};
use syntect::easy::HighlightLines;
use syntect::highlighting::ThemeSet;
use syntect::parsing::SyntaxSet;
use syntect::util::LinesWithEndings;

verus! {

#[derive(Debug, Clone, Copy, PartialEq, Eq, Structural)]
pub enum HeadingLevel {
    H1,
    H2,
    H3,
    H4,
    H5,
    H6,
}

/// The parse events the renderer acts on; everything else is `Other`.
#[derive(Debug)]
pub enum MdEvent {
    StartParagraph,
    EndParagraph,
    StartHeading(HeadingLevel),
    EndHeading(HeadingLevel),
    StartStrong,
    EndStrong,
    StartEmphasis,
    EndEmphasis,
    StartStrikethrough,
    EndStrikethrough,
    StartBlockQuote,
    EndBlockQuote,
    /// A code block: fenced with its info string, or indented (`None`).
    StartCodeBlock(Option<String>),
    EndCodeBlock,
    /// A list: ordered from the given number, or unordered (`None`).
    StartList(Option<u64>),
    EndList,
    StartItem,
    EndItem,
    StartLink(String),
    EndLink,
    Text(String),
    Code(String),
    SoftBreak,
    HardBreak,
    Rule,
    TaskListMarker(bool),
    Other,
}

#[derive(Debug, Clone, Copy, PartialEq, Eq, Structural)]
pub enum ListKind {
    Unordered,
    /// An ordered list and the number of its next item.
    Ordered(u64),
}

pub struct Renderer {
    pub lines: Vec<Line>,
    pub current_spans: Vec<StyledSpan>,
    pub bold: bool,
    pub italic: bool,
    pub strikethrough: bool,
    pub heading_level: Option<HeadingLevel>,
    pub in_blockquote: bool,
    pub in_code_block: bool,
    pub code_block_lang: String,
    pub code_block_content: String,
    pub list_stack: Vec<ListKind>,
    pub in_link: bool,
    pub link_url: String,
    /// Whether code is highlighted for a dark background.
    pub dark: bool,
}

/// The colour of a heading level.
pub open spec fn heading_color(level: HeadingLevel) -> Color {
    match level {
        HeadingLevel::H1 => Color::Cyan,
        HeadingLevel::H2 => Color::Green,
        HeadingLevel::H3 => Color::Yellow,
        HeadingLevel::H4 => Color::Magenta,
        HeadingLevel::H5 => Color::Blue,
        HeadingLevel::H6 => Color::Red,
    }
}

/// The renderer's switches: inline emphasis, the heading, the quote, code
/// block and link being inside.
#[derive(Clone, Copy)]
pub struct MdFlags {
    pub bold: bool,
    pub italic: bool,
    pub strikethrough: bool,
    pub heading_level: Option<HeadingLevel>,
    pub in_blockquote: bool,
    pub in_code_block: bool,
    pub in_link: bool,
}

/// The style of running text under `f`: heading colour and bold, then the
/// open emphasis, strike-through and quote (dim) on top.
pub open spec fn text_style(f: MdFlags) -> Style {
    Style {
        fg: match f.heading_level {
            Some(l) => Some(heading_color(l)),
            None => None,
        },
        bg: None,
        bold: f.heading_level is Some || f.bold,
        italic: f.italic,
        underline: false,
        strikethrough: f.strikethrough,
        dim: f.in_blockquote,
        link_url: None,
    }
}

/// `s` as it stands, or with the trailing newlines and then the trailing
/// carriage returns taken off.
pub open spec fn trim_line_end(s: Seq<char>) -> Seq<char> {
    strip_trailing(strip_trailing(s, '\n'), '\r')
}

/// `s` without its trailing run of `c`.
pub open spec fn strip_trailing(s: Seq<char>, c: char) -> Seq<char>
    decreases s.len(),
{
    if s.len() > 0 && s.last() == c {
        strip_trailing(s.drop_last(), c)
    } else {
        s
    }
}

fn strip_trailing_chars(s: &Vec<char>, c: char) -> (r: Vec<char>)
    ensures
        r@ == strip_trailing(s@, c),
{
    let mut end = s.len();
    proof {
        assert(s@.subrange(0, s@.len() as int) =~= s@);
    }
    while end > 0 && s[end - 1] == c
        invariant
            end <= s@.len(),
            strip_trailing(s@, c) == strip_trailing(s@.subrange(0, end as int), c),
        decreases end,
    {
        proof {
            assert(s@.subrange(0, end as int).drop_last() =~= s@.subrange(0, end - 1));
        }
        end = end - 1;
    }
    proof {
        assert(s@.subrange(0, s@.len() as int) =~= s@);
    }
    let mut r: Vec<char> = Vec::new();
    let mut i: usize = 0;
    while i < end
        invariant
            end <= s@.len(),
            i <= end,
            r@ == s@.subrange(0, i as int),
        decreases end - i,
    {
        r.push(s[i]);
        i = i + 1;
        proof {
            assert(r@ =~= s@.subrange(0, i as int));
        }
    }
    r
}

/// `n` copies of `c`.
fn repeat_char(c: char, n: usize) -> (s: String)
    ensures
        s@ == Seq::new(n as nat, |i: int| c),
{
    let mut s = String::new();
    let mut i: usize = 0;
    while i < n
        invariant
            i <= n,
            s@ == Seq::new(i as nat, |k: int| c),
        decreases n - i,
    {
        push_char(&mut s, c);
        i = i + 1;
        proof {
            assert(s@ =~= Seq::new(i as nat, |k: int| c));
        }
    }
    s
}

fn span(text: String, style: Style) -> (s: StyledSpan)
    ensures
        s.text@ == text@,
        s.style == style,
{
    StyledSpan { text, style }
}

/// Syntax highlighting of `code` in syntect's theme `theme` as the
/// language `lang` names (or plain text), one entry per line: the pieces of the line with their colour and
/// font style bits, or nothing when the highlighter failed on the line.
pub uninterp spec fn highlighted(theme: Seq<char>, lang: Seq<char>, code: Seq<char>) -> Seq<Option<Seq<(u8, u8, u8, u8, Seq<char>)>>>;

pub open spec fn highlight_view(r: Seq<Option<Vec<(u8, u8, u8, u8, String)>>>) -> Seq<Option<Seq<(u8, u8, u8, u8, Seq<char>)>>> {
    r.map_values(|o: Option<Vec<(u8, u8, u8, u8, String)>>| match o {
        Some(v) => Some(v@.map_values(|p: (u8, u8, u8, u8, String)| (p.0, p.1, p.2, p.3, p.4@))),
        None => None,
    })
}

/// Highlights `code` with syntect's default syntaxes and its default theme
/// `theme`: the syntax whose token is `lang` (plain text
/// when syntect knows none), line by line (`LinesWithEndings`, which splits
/// after every line break), each range as foreground colour, font style bits
/// and text. The result is a function of the two texts, named
/// [`highlighted`]; one entry per line is stated, what the grammars make of
/// the lines is not.
#[verifier::external_body]
fn highlight_code(theme: &str, lang: &str, code: &str) -> (r: Vec<Option<Vec<(u8, u8, u8, u8, String)>>>)
    requires
        theme@ == syntect_theme_name(true) || theme@ == syntect_theme_name(false),
    ensures
        highlight_view(r@) == highlighted(theme@, lang@, code@),
        r@.len() == lines_from(code@, 0).len(),
{
    let ss = SyntaxSet::load_defaults_newlines();
    let themes = ThemeSet::load_defaults();
    let syntax = ss.find_syntax_by_token(lang).unwrap_or_else(|| ss.find_syntax_plain_text());
    let mut hl = HighlightLines::new(syntax, &themes.themes[theme]);
    LinesWithEndings::from(code)
        .map(|line| hl.highlight_line(line, &ss).ok().map(|ranges| {
            ranges.into_iter().map(|(st, t)| (st.foreground.r, st.foreground.g, st.foreground.b, st.font_style.bits(), t.to_string())).collect()
        }))
        .collect()
}

/// Syntax highlighting of `code` as plain text, as [`highlighted`] gives
/// it for the plain-text syntax.
pub uninterp spec fn highlighted_plain(theme: Seq<char>, code: Seq<char>) -> Seq<Option<Seq<(u8, u8, u8, u8, Seq<char>)>>>;

/// Highlights `code` with syntect's plain-text syntax and its default theme
/// `theme`, line by line; named [`highlighted_plain`].
#[verifier::external_body]
fn highlight_plain(theme: &str, code: &str) -> (r: Vec<Option<Vec<(u8, u8, u8, u8, String)>>>)
    requires
        theme@ == syntect_theme_name(true) || theme@ == syntect_theme_name(false),
    ensures
        highlight_view(r@) == highlighted_plain(theme@, code@),
        r@.len() == lines_from(code@, 0).len(),
{
    let ss = SyntaxSet::load_defaults_newlines();
    let themes = ThemeSet::load_defaults();
    let mut hl = HighlightLines::new(ss.find_syntax_plain_text(), &themes.themes[theme]);
    LinesWithEndings::from(code)
        .map(|line| hl.highlight_line(line, &ss).ok().map(|ranges| {
            ranges.into_iter().map(|(st, t)| (st.foreground.r, st.foreground.g, st.foreground.b, st.font_style.bits(), t.to_string())).collect()
        }))
        .collect()
}

/// The end of the line of `code` that starts at `i`: just past its line
/// break, or the end of the text.
pub open spec fn next_break(code: Seq<char>, i: int) -> int
    decreases code.len() - i,
{
    if i >= code.len() || i < 0 {
        code.len() as int
    } else if code[i] == '\n' {
        i + 1
    } else {
        next_break(code, i + 1)
    }
}

/// The lines of `code` from `from` on, each with its line break, as
/// `LinesWithEndings` splits them.
pub open spec fn lines_from(code: Seq<char>, from: int) -> Seq<Seq<char>>
    decreases code.len() - from,
{
    if from >= code.len() || from < 0 {
        Seq::empty()
    } else {
        let e = next_break(code, from);
        if from < e <= code.len() {
            seq![code.subrange(from, e)] + lines_from(code, e)
        } else {
            Seq::empty()
        }
    }
}

proof fn lemma_next_break_bounds(code: Seq<char>, i: int)
    requires
        0 <= i < code.len(),
    ensures
        i < next_break(code, i) <= code.len(),
    decreases code.len() - i,
{
    if code[i] != '\n' {
        if i + 1 < code.len() {
            lemma_next_break_bounds(code, i + 1);
        } else {
            assert(next_break(code, i + 1) == code.len());
        }
    }
}

fn line_end_from(code: &Vec<char>, from: usize) -> (e: usize)
    requires
        from < code.len(),
    ensures
        e == next_break(code@, from as int),
        from < e <= code.len(),
{
    let mut i = from;
    while i < code.len() && code[i] != '\n'
        invariant
            from <= i <= code@.len(),
            next_break(code@, from as int) == next_break(code@, i as int),
        decreases code@.len() - i,
    {
        i = i + 1;
    }
    proof {
        lemma_next_break_bounds(code@, from as int);
    }
    if i < code.len() {
        i + 1
    } else {
        i
    }
}

fn split_lines(code: &Vec<char>) -> (ls: Vec<Vec<char>>)
    ensures
        ls@.map_values(|l: Vec<char>| l@) == lines_from(code@, 0),
{
    let mut ls: Vec<Vec<char>> = Vec::new();
    let mut from: usize = 0;
    while from < code.len()
        invariant
            from <= code@.len(),
            ls@.map_values(|l: Vec<char>| l@) + lines_from(code@, from as int) == lines_from(code@, 0),
        decreases code@.len() - from,
    {
        let e = line_end_from(code, from);
        let ghost before = ls@.map_values(|l: Vec<char>| l@);
        let mut line: Vec<char> = Vec::new();
        let mut i = from;
        while i < e
            invariant
                from <= i <= e <= code@.len(),
                line@ == code@.subrange(from as int, i as int),
            decreases e - i,
        {
            line.push(code[i]);
            i = i + 1;
            proof {
                assert(line@ =~= code@.subrange(from as int, i as int));
            }
        }
        ls.push(line);
        proof {
            assert(ls@.map_values(|l: Vec<char>| l@) =~= before.push(code@.subrange(from as int, e as int)));
            assert(lines_from(code@, from as int) == seq![code@.subrange(from as int, e as int)] + lines_from(code@, e as int));
            assert(before.push(code@.subrange(from as int, e as int)) + lines_from(code@, e as int) =~= before + lines_from(code@, from as int));
        }
        from = e;
    }
    proof {
        assert(lines_from(code@, from as int) =~= Seq::<Seq<char>>::empty());
        assert(ls@.map_values(|l: Vec<char>| l@) + Seq::<Seq<char>>::empty() =~= ls@.map_values(|l: Vec<char>| l@));
    }
    ls
}

/// A style from a highlighter's colour and font style bits (bold 1,
/// underline 2, italic 4).
pub open spec fn syntax_style(r: u8, g: u8, b: u8, bits: u8) -> Style {
    Style {
        fg: Some(Color::Rgb { r, g, b }),
        bg: None,
        bold: bits & 1 != 0,
        italic: bits & 4 != 0,
        underline: bits & 2 != 0,
        strikethrough: false,
        dim: false,
        link_url: None,
    }
}

fn syntect_to_style(r: u8, g: u8, b: u8, bits: u8) -> (s: Style)
    ensures
        s == syntax_style(r, g, b, bits),
{
    Style {
        fg: Some(Color::Rgb { r, g, b }),
        bg: None,
        bold: bits & 1 != 0,
        italic: bits & 4 != 0,
        underline: bits & 2 != 0,
        strikethrough: false,
        dim: false,
        link_url: None,
    }
}


/// A style with nothing set.
pub open spec fn bare_style() -> Style {
    Style {
        fg: None,
        bg: None,
        bold: false,
        italic: false,
        underline: false,
        strikethrough: false,
        dim: false,
        link_url: None,
    }
}

/// What a renderer holds, as values: the finished lines, the line being
/// built, the switches, the code block's language and text, the open lists
/// and the link target.
pub struct MdModel {
    pub lines: Seq<Seq<SpanV>>,
    pub spans: Seq<SpanV>,
    pub flags: MdFlags,
    pub lang: Seq<char>,
    pub code: Seq<char>,
    pub lists: Seq<ListKind>,
    pub url: Seq<char>,
    pub dark: bool,
}

pub open spec fn flags_of(r: Renderer) -> MdFlags {
    MdFlags {
        bold: r.bold,
        italic: r.italic,
        strikethrough: r.strikethrough,
        heading_level: r.heading_level,
        in_blockquote: r.in_blockquote,
        in_code_block: r.in_code_block,
        in_link: r.in_link,
    }
}

pub open spec fn md_model(r: Renderer) -> MdModel {
    MdModel {
        lines: lines_v(r.lines@),
        spans: spans_v(r.current_spans@),
        flags: flags_of(r),
        lang: r.code_block_lang@,
        code: r.code_block_content@,
        lists: r.list_stack@,
        url: r.link_url@,
        dark: r.dark,
    }
}

/// A fresh renderer: nothing rendered, nothing open; code highlighted for
/// a dark background or a light one.
pub open spec fn start_model(dark: bool) -> MdModel {
    MdModel {
        lines: Seq::empty(),
        spans: Seq::empty(),
        flags: MdFlags {
            bold: false,
            italic: false,
            strikethrough: false,
            heading_level: None,
            in_blockquote: false,
            in_code_block: false,
            in_link: false,
        },
        lang: Seq::empty(),
        code: Seq::empty(),
        lists: Seq::empty(),
        url: Seq::empty(),
        dark,
    }
}

pub open spec fn grey(t: Seq<char>) -> SpanV {
    plain(t, Style::fg_spec(Color::DarkGrey))
}

/// The line being built becomes a finished line (behind the quote bar
/// inside a quote); nothing happens when it is empty.
pub open spec fn flushed(m: MdModel) -> MdModel {
    if m.spans.len() == 0 {
        m
    } else {
        MdModel {
            lines: m.lines.push(
                if m.flags.in_blockquote {
                    seq![grey("  │ "@)] + m.spans
                } else {
                    m.spans
                },
            ),
            spans: Seq::empty(),
            ..m
        }
    }
}

/// An empty line is added: inside a quote, one with only the quote bar.
pub open spec fn with_empty(m: MdModel) -> MdModel {
    MdModel {
        lines: m.lines.push(
            if m.flags.in_blockquote {
                seq![grey("  │"@)]
            } else {
                Seq::empty()
            },
        ),
        ..m
    }
}

pub open spec fn with_span(m: MdModel, s: SpanV) -> MdModel {
    MdModel { spans: m.spans.push(s), ..m }
}

pub open spec fn with_lines(m: MdModel, extra: Seq<Seq<SpanV>>) -> MdModel {
    MdModel { lines: m.lines + extra, ..m }
}

pub open spec fn with_flags(m: MdModel, f: MdFlags) -> MdModel {
    MdModel { flags: f, ..m }
}

/// `n`, or `usize::MAX` where it is larger.
pub open spec fn capped(n: int) -> int {
    if n <= usize::MAX {
        n
    } else {
        usize::MAX as int
    }
}

/// The length of the rule under a heading: the width of the line above it,
/// at least 20 (20 when there is none).
pub open spec fn rule_width(lines: Seq<Seq<SpanV>>) -> nat {
    let w = if lines.len() > 0 {
        capped(spans_width(lines.last()))
    } else {
        20
    };
    if w > 20 {
        w as nat
    } else {
        20
    }
}

/// The rule under a heading: a double one in bold cyan for the first level,
/// a single green one for the second, none for the others.
pub open spec fn heading_rule(level: HeadingLevel, lines: Seq<Seq<SpanV>>) -> Seq<Seq<SpanV>> {
    match level {
        HeadingLevel::H1 => seq![
            seq![plain(Seq::new(rule_width(lines), |i: int| '═'), Style { bold: true, ..Style::fg_spec(Color::Cyan) })],
        ],
        HeadingLevel::H2 => seq![seq![plain(Seq::new(rule_width(lines), |i: int| '─'), Style::fg_spec(Color::Green))]],
        _ => Seq::empty(),
    }
}

/// The label in a code block's top border: the trimmed language between
/// spaces, or nothing.
pub open spec fn code_label(lang: Seq<char>) -> Seq<char> {
    if trim(lang).len() == 0 {
        Seq::empty()
    } else {
        seq![' '] + trim(lang) + seq![' ']
    }
}

pub open spec fn label_len(lang: Seq<char>) -> int {
    capped(utf8_len(code_label(lang)))
}

/// The fill of the top border: the frame is 60 bytes wide with the label.
pub open spec fn top_fill(lang: Seq<char>) -> int {
    if label_len(lang) + 4 >= 60 {
        0
    } else {
        60 - (label_len(lang) + 4)
    }
}

pub open spec fn bottom_fill(lang: Seq<char>) -> int {
    capped(capped(top_fill(lang) + label_len(lang)) + 1)
}

pub open spec fn code_top(lang: Seq<char>) -> Seq<SpanV> {
    seq![grey("  ╭─"@ + code_label(lang) + Seq::new(top_fill(lang) as nat, |i: int| '─') + seq!['╮'])]
}

pub open spec fn code_bottom(lang: Seq<char>) -> Seq<SpanV> {
    seq![grey("  ╰"@ + Seq::new(bottom_fill(lang) as nat, |i: int| '─') + seq!['╯'])]
}

/// The highlighted pieces of a line, line breaks taken off, the empty ones
/// left out.
pub open spec fn piece_spans(p: Seq<(u8, u8, u8, u8, Seq<char>)>) -> Seq<SpanV>
    decreases p.len(),
{
    if p.len() == 0 {
        Seq::empty()
    } else {
        let q = p.last();
        piece_spans(p.drop_last()) + if trim_line_end(q.4).len() > 0 {
            seq![plain(trim_line_end(q.4), syntax_style(q.0, q.1, q.2, q.3))]
        } else {
            Seq::<SpanV>::empty()
        }
    }
}

/// A line of code behind the frame's bar: its highlighted pieces, or the
/// bare line where the highlighter failed on it.
pub open spec fn code_row(h: Option<Seq<(u8, u8, u8, u8, Seq<char>)>>, line: Seq<char>) -> Seq<SpanV> {
    seq![grey("  │ "@)] + match h {
        Some(p) => piece_spans(p),
        None => seq![plain(trim_line_end(line), bare_style())],
    }
}

/// The syntect theme code is highlighted in: `base16-ocean.dark` on a dark
/// background, `InspiredGitHub` on a light one.
pub open spec fn syntect_theme_name(dark: bool) -> Seq<char> {
    if dark {
        "base16-ocean.dark"@
    } else {
        "InspiredGitHub"@
    }
}

/// The highlighting of a code block: as plain text without a language.
pub open spec fn code_highlight(dark: bool, lang: Seq<char>, code: Seq<char>) -> Seq<Option<Seq<(u8, u8, u8, u8, Seq<char>)>>> {
    if trim(lang).len() == 0 {
        highlighted_plain(syntect_theme_name(dark), code)
    } else {
        highlighted(syntect_theme_name(dark), trim(lang), code)
    }
}

pub open spec fn code_rows(dark: bool, lang: Seq<char>, code: Seq<char>) -> Seq<Seq<SpanV>> {
    Seq::new(lines_from(code, 0).len(), |i: int| code_row(code_highlight(dark, lang, code)[i], lines_from(code, 0)[i]))
}

/// A framed code block: the top border with the language, a row per line
/// of code, the bottom border.
pub open spec fn code_block_lines(dark: bool, lang: Seq<char>, code: Seq<char>) -> Seq<Seq<SpanV>> {
    seq![code_top(lang)] + code_rows(dark, lang, code) + seq![code_bottom(lang)]
}

/// The code block collected so far is framed and added; its text is
/// cleared.
pub open spec fn code_emitted(m: MdModel) -> MdModel {
    MdModel { lines: m.lines + code_block_lines(m.dark, m.lang, m.code), code: Seq::empty(), ..m }
}

/// The bullet of a new item in the innermost open list: two spaces per
/// enclosing list, then a dot or the item's number.
pub open spec fn item_bullet(lists: Seq<ListKind>) -> Seq<char> {
    if lists.len() == 0 {
        Seq::empty()
    } else {
        let indent = Seq::new((2 * (lists.len() - 1)) as nat, |i: int| ' ');
        match lists.last() {
            ListKind::Unordered => indent + "  • "@,
            ListKind::Ordered(n) => indent + "  "@ + decimal(n as nat) + ". "@,
        }
    }
}

/// The open lists after an item starts: an ordered innermost list counts on
/// (wrapping at the end of `u64`).
pub open spec fn after_item(lists: Seq<ListKind>) -> Seq<ListKind> {
    if lists.len() == 0 {
        lists
    } else {
        match lists.last() {
            ListKind::Ordered(n) => lists.update(
                lists.len() - 1,
                ListKind::Ordered(
                    if n < u64::MAX {
                        (n + 1) as u64
                    } else {
                        0
                    },
                ),
            ),
            ListKind::Unordered => lists,
        }
    }
}

pub open spec fn bullet_style() -> Style {
    Style { bold: true, ..Style::fg_spec(Color::Cyan) }
}

pub open spec fn link_style(f: MdFlags) -> Style {
    Style { fg: Some(Color::Blue), underline: true, ..text_style(f) }
}

/// A heading ends: its line is finished, then the rule under it and an
/// empty line follow.
pub open spec fn heading_ended(m: MdModel, l: HeadingLevel) -> MdModel {
    let m1 = with_flags(flushed(m), MdFlags { heading_level: None, ..m.flags });
    with_empty(with_lines(m1, heading_rule(l, m1.lines)))
}

/// A list ends; after the outermost one comes an empty line.
pub open spec fn list_ended(m: MdModel) -> MdModel {
    let ls = if m.lists.len() > 0 {
        m.lists.drop_last()
    } else {
        m.lists
    };
    if ls.len() == 0 {
        with_empty(MdModel { lists: ls, ..m })
    } else {
        MdModel { lists: ls, ..m }
    }
}

/// An item starts with its bullet.
pub open spec fn item_started(m: MdModel) -> MdModel {
    with_span(MdModel { lists: after_item(m.lists), ..m }, plain(item_bullet(m.lists), bullet_style()))
}

/// A link ends with its target in brackets, in grey.
pub open spec fn link_ended(m: MdModel) -> MdModel {
    MdModel {
        spans: m.spans.push(grey(" ("@ + m.url + seq![')'])),
        url: Seq::empty(),
        flags: MdFlags { in_link: false, ..m.flags },
        ..m
    }
}

/// Text goes into the code block being collected, or onto the line in the
/// link's or the running style.
pub open spec fn text_added(m: MdModel, t: Seq<char>) -> MdModel {
    if m.flags.in_code_block {
        MdModel { code: m.code + t, ..m }
    } else if m.flags.in_link {
        with_span(m, plain(t, link_style(m.flags)))
    } else {
        with_span(m, plain(t, text_style(m.flags)))
    }
}

/// What one parse event does to the renderer.
pub open spec fn step(m: MdModel, e: MdEvent) -> MdModel {
    let f = m.flags;
    match e {
        MdEvent::StartParagraph => m,
        MdEvent::EndParagraph => with_empty(flushed(m)),
        MdEvent::StartHeading(l) => with_flags(m, MdFlags { heading_level: Some(l), ..f }),
        MdEvent::EndHeading(l) => heading_ended(m, l),
        MdEvent::StartStrong => with_flags(m, MdFlags { bold: true, ..f }),
        MdEvent::EndStrong => with_flags(m, MdFlags { bold: false, ..f }),
        MdEvent::StartEmphasis => with_flags(m, MdFlags { italic: true, ..f }),
        MdEvent::EndEmphasis => with_flags(m, MdFlags { italic: false, ..f }),
        MdEvent::StartStrikethrough => with_flags(m, MdFlags { strikethrough: true, ..f }),
        MdEvent::EndStrikethrough => with_flags(m, MdFlags { strikethrough: false, ..f }),
        MdEvent::StartBlockQuote => with_flags(m, MdFlags { in_blockquote: true, ..f }),
        MdEvent::EndBlockQuote => with_empty(with_flags(m, MdFlags { in_blockquote: false, ..f })),
        MdEvent::StartCodeBlock(k) => MdModel {
            flags: MdFlags { in_code_block: true, ..f },
            lang: match k {
                Some(l) => l@,
                None => Seq::empty(),
            },
            code: Seq::empty(),
            ..m
        },
        MdEvent::EndCodeBlock => with_empty(with_flags(code_emitted(m), MdFlags { in_code_block: false, ..f })),
        MdEvent::StartList(o) => MdModel {
            lists: m.lists.push(
                match o {
                    Some(n) => ListKind::Ordered(n),
                    None => ListKind::Unordered,
                },
            ),
            ..m
        },
        MdEvent::EndList => list_ended(m),
        MdEvent::StartItem => item_started(m),
        MdEvent::EndItem => flushed(m),
        MdEvent::StartLink(u) => MdModel { flags: MdFlags { in_link: true, ..f }, url: u@, ..m },
        MdEvent::EndLink => link_ended(m),
        MdEvent::Text(t) => text_added(m, t@),
        MdEvent::Code(c) => with_span(m, plain(seq![' '] + c@ + seq![' '], Style::fg_spec(Color::Yellow))),
        MdEvent::SoftBreak => with_span(m, plain(seq![' '], text_style(f))),
        MdEvent::HardBreak => flushed(m),
        MdEvent::Rule => with_empty(with_lines(m, seq![seq![grey(Seq::new(60, |i: int| '─'))]])),
        MdEvent::TaskListMarker(b) => with_span(
            m,
            plain(
                if b {
                    "☑ "@
                } else {
                    "☐ "@
                },
                Style::fg_spec(Color::Cyan),
            ),
        ),
        MdEvent::Other => m,
    }
}

/// The events one after another.
pub open spec fn run(m: MdModel, evs: Seq<MdEvent>) -> MdModel
    decreases evs.len(),
{
    if evs.len() == 0 {
        m
    } else {
        step(run(m, evs.drop_last()), evs.last())
    }
}

/// The lines a document comes to: every event from a fresh renderer, then
/// the line still being built.
pub open spec fn md_lines(evs: Seq<MdEvent>) -> Seq<Seq<SpanV>> {
    md_lines_with(evs, true)
}

/// The lines a document comes to with code highlighted for a dark or a
/// light background.
pub open spec fn md_lines_with(evs: Seq<MdEvent>, dark: bool) -> Seq<Seq<SpanV>> {
    flushed(run(start_model(dark), evs)).lines
}

proof fn lemma_spans_v_push(s: Seq<StyledSpan>, x: StyledSpan)
    ensures
        spans_v(s.push(x)) == spans_v(s).push(span_v(x)),
{
    assert(spans_v(s.push(x)) =~= spans_v(s).push(span_v(x)));
}

proof fn lemma_lines_v_push(l: Seq<Line>, x: Line)
    ensures
        lines_v(l.push(x)) == lines_v(l).push(spans_v(x.spans@)),
{
    assert(lines_v(l.push(x)) =~= lines_v(l).push(spans_v(x.spans@)));
}

proof fn lemma_spans_v_add(a: Seq<StyledSpan>, b: Seq<StyledSpan>)
    ensures
        spans_v(a + b) == spans_v(a) + spans_v(b),
{
    assert(spans_v(a + b) =~= spans_v(a) + spans_v(b));
}

fn grey_span(text: &str) -> (s: StyledSpan)
    ensures
        span_v(s) == grey(text@),
{
    span(string_of(&chars_of(text)), Style::fg(Color::DarkGrey))
}

impl Renderer {
    pub fn new() -> (r: Renderer)
        ensures
            md_model(r) == start_model(true),
    {
        Renderer::new_for(true)
    }

    /// A fresh renderer that highlights code for a dark or a light
    /// background.
    pub fn new_for(dark: bool) -> (r: Renderer)
        ensures
            md_model(r) == start_model(dark),
    {
        let r = Renderer {
            lines: Vec::new(),
            current_spans: Vec::new(),
            bold: false,
            italic: false,
            strikethrough: false,
            heading_level: None,
            in_blockquote: false,
            in_code_block: false,
            code_block_lang: String::new(),
            code_block_content: String::new(),
            list_stack: Vec::new(),
            in_link: false,
            link_url: String::new(),
            dark,
        };
        proof {
            assert(lines_v(r.lines@) =~= Seq::<Seq<SpanV>>::empty());
            assert(spans_v(r.current_spans@) =~= Seq::<SpanV>::empty());
        }
        r
    }

    /// The style for running text; see [`text_style`].
    pub fn current_style(&self) -> (s: Style)
        ensures
            s == text_style(flags_of(*self)),
    {
        let mut style = Style::default();
        match self.heading_level {
            Some(level) => {
                style.bold = true;
                style.fg = Some(match level {
                    HeadingLevel::H1 => Color::Cyan,
                    HeadingLevel::H2 => Color::Green,
                    HeadingLevel::H3 => Color::Yellow,
                    HeadingLevel::H4 => Color::Magenta,
                    HeadingLevel::H5 => Color::Blue,
                    HeadingLevel::H6 => Color::Red,
                });
            },
            None => {},
        }
        if self.bold {
            style.bold = true;
        }
        if self.italic {
            style.italic = true;
        }
        if self.strikethrough {
            style.strikethrough = true;
        }
        if self.in_blockquote {
            style.dim = true;
        }
        style
    }

    /// Adds a span to the line being built.
    pub fn push_span(&mut self, text: &str, style: Style)
        requires
            style.link_url is None,
        ensures
            md_model(*final(self)) == with_span(md_model(*old(self)), plain(text@, style)),
    {
        let sp = span(string_of(&chars_of(text)), style);
        proof {
            lemma_spans_v_push(self.current_spans@, sp);
        }
        self.current_spans.push(sp);
    }

    /// Ends the line being built, if it has any span; inside a quote it gets
    /// the quote bar in front.
    pub fn flush_line(&mut self)
        ensures
            md_model(*final(self)) == flushed(md_model(*old(self))),
    {
        if self.current_spans.len() > 0 {
            let mut spans: Vec<StyledSpan> = Vec::new();
            if self.in_blockquote {
                spans.push(grey_span("  │ "));
            }
            let ghost pre = spans@;
            let mut current: Vec<StyledSpan> = Vec::new();
            std::mem::swap(&mut current, &mut self.current_spans);
            let ghost cur = current@;
            spans.append(&mut current);
            proof {
                assert(spans@ == pre + cur);
                lemma_spans_v_add(pre, cur);
                if self.in_blockquote {
                    assert(spans_v(pre) =~= seq![grey("  │ "@)]);
                } else {
                    assert(spans_v(pre) =~= Seq::<SpanV>::empty());
                    assert(spans_v(pre) + spans_v(cur) =~= spans_v(cur));
                }
                assert(spans_v(self.current_spans@) =~= Seq::<SpanV>::empty());
            }
            let line = Line { spans };
            proof {
                lemma_lines_v_push(self.lines@, line);
            }
            self.lines.push(line);
        }
    }

    /// Adds an empty line (inside a quote, one with just the quote bar).
    pub fn push_empty_line(&mut self)
        ensures
            md_model(*final(self)) == with_empty(md_model(*old(self))),
    {
        let mut spans: Vec<StyledSpan> = Vec::new();
        if self.in_blockquote {
            spans.push(grey_span("  │"));
        }
        proof {
            if self.in_blockquote {
                assert(spans_v(spans@) =~= seq![grey("  │"@)]);
            } else {
                assert(spans_v(spans@) =~= Seq::<SpanV>::empty());
            }
        }
        let line = Line { spans };
        proof {
            lemma_lines_v_push(self.lines@, line);
        }
        self.lines.push(line);
    }

    /// Adds a line of `n` copies of `c` in `style`.
    fn push_rule_line(&mut self, c: char, n: usize, style: Style)
        requires
            style.link_url is None,
        ensures
            md_model(*final(self)) == with_lines(md_model(*old(self)), seq![seq![plain(Seq::new(n as nat, |i: int| c), style)]]),
    {
        let mut spans: Vec<StyledSpan> = Vec::new();
        spans.push(span(repeat_char(c, n), style));
        proof {
            assert(spans_v(spans@) =~= seq![plain(Seq::new(n as nat, |i: int| c), style)]);
        }
        let line = Line { spans };
        proof {
            lemma_lines_v_push(self.lines@, line);
            assert(lines_v(self.lines@).push(spans_v(line.spans@)) =~= lines_v(self.lines@) + seq![seq![plain(Seq::new(n as nat, |i: int| c), style)]]);
        }
        self.lines.push(line);
    }
}

fn decimal_u64(n: u64) -> (r: Vec<char>)
    ensures
        r@ == decimal(n as nat),
    decreases n,
{
    if n < 10 {
        let mut r: Vec<char> = Vec::new();
        r.push(digit_u64(n));
        proof {
            assert(r@ =~= seq![crate::viewer::digit_char(n as nat)]);
        }
        r
    } else {
        let mut r = decimal_u64(n / 10);
        r.push(digit_u64(n % 10));
        r
    }
}

fn digit_u64(d: u64) -> (c: char)
    requires
        d < 10,
    ensures
        c == crate::viewer::digit_char(d as nat),
{
    if d == 0 { '0' } else if d == 1 { '1' } else if d == 2 { '2' } else if d == 3 { '3' } else if d == 4 {
        '4'
    } else if d == 5 { '5' } else if d == 6 { '6' } else if d == 7 { '7' } else if d == 8 { '8' } else { '9' }
}

fn append_chars(out: &mut Vec<char>, s: &str)
    ensures
        final(out)@ == old(out)@ + s@,
{
    crate::text::push_str(out, s);
}

impl Renderer {
    /// Frames the collected code block, highlighted line by line, and
    /// clears it.
    #[verifier::rlimit(60)]
    pub fn emit_code_block(&mut self)
        ensures
            md_model(*final(self)) == code_emitted(md_model(*old(self))),
    {
        let ghost lang0 = self.code_block_lang@;
        let ghost dk = self.dark;
        let lang_all = chars_of(self.code_block_lang.as_str());
        let (lo, hi) = crate::text::trim_bounds(&lang_all);
        let lang = string_of_range(&lang_all, lo, hi);
        let mut code = String::new();
        std::mem::swap(&mut code, &mut self.code_block_content);
        let ghost code0 = code@;
        let code_chars = chars_of(code.as_str());
        let lang_empty = hi == lo;
        let theme = if self.dark { "base16-ocean.dark" } else { "InspiredGitHub" };
        proof {
            reveal_strlit("base16-ocean.dark");
            reveal_strlit("InspiredGitHub");
        }
        let hl = if lang_empty {
            highlight_plain(theme, code.as_str())
        } else {
            highlight_code(theme, lang.as_str(), code.as_str())
        };
        let code_lines = split_lines(&code_chars);
        let ghost ls = lines_from(code0, 0);
        let ghost hv = code_highlight(dk, lang0, code0);
        proof {
            assert(lang@ == trim(lang0));
            assert(highlight_view(hl@) == hv);
            assert(code_lines@.len() == ls.len());
        }
        let mut label: Vec<char> = Vec::new();
        if !lang_empty {
            label.push(' ');
            append_chars(&mut label, lang.as_str());
            label.push(' ');
        }
        proof {
            if lang_empty {
                assert(label@ =~= code_label(lang0));
            } else {
                assert(label@ =~= code_label(lang0));
            }
        }
        let label_bytes = utf8_length(&label);
        let border_width = 60usize.saturating_sub(label_bytes.saturating_add(4));
        assert(border_width == top_fill(lang0));

        let ghost old_lines = self.lines@;
        // Top border
        let mut top: Vec<char> = Vec::new();
        append_chars(&mut top, "  ╭─");
        crate::text::push_all(&mut top, &label);
        let fill = repeat_char('─', border_width);
        append_chars(&mut top, fill.as_str());
        top.push('╮');
        let mut spans: Vec<StyledSpan> = Vec::new();
        spans.push(span(string_of(&top), Style::fg(Color::DarkGrey)));
        proof {
            assert(top@ =~= "  ╭─"@ + code_label(lang0) + Seq::new(top_fill(lang0) as nat, |i: int| '─') + seq!['╮']);
            assert(spans_v(spans@) =~= code_top(lang0));
        }
        let line = Line { spans };
        proof {
            lemma_lines_v_push(self.lines@, line);
        }
        self.lines.push(line);
        proof {
            assert(lines_v(self.lines@) =~= lines_v(old_lines) + seq![code_top(lang0)] + code_rows(dk, lang0, code0).take(0));
        }

        let mut i: usize = 0;
        while i < code_lines.len()
            invariant

                self.dark == dk,
                i <= code_lines@.len(),
                code_lines@.len() == ls.len(),
                ls == lines_from(code0, 0),
                hv == code_highlight(dk, lang0, code0),
                highlight_view(hl@) == hv,
                hl@.len() == code_lines@.len(),
                code_lines@.map_values(|l: Vec<char>| l@) == ls,
                lines_v(self.lines@) == lines_v(old_lines) + seq![code_top(lang0)] + code_rows(dk, lang0, code0).take(i as int),
                self.code_block_content@.len() == 0,
                self.current_spans == old(self).current_spans,
                self.bold == old(self).bold && self.italic == old(self).italic,
                self.strikethrough == old(self).strikethrough,
                self.heading_level == old(self).heading_level,
                self.in_blockquote == old(self).in_blockquote,
                self.in_code_block == old(self).in_code_block,
                self.in_link == old(self).in_link,
                self.list_stack@ == old(self).list_stack@,
                self.code_block_lang@ == lang0,
                self.link_url@ == old(self).link_url@,
            decreases code_lines@.len() - i,
        {
            let mut spans: Vec<StyledSpan> = Vec::new();
            spans.push(grey_span("  │ "));
            proof {
                assert(code_lines@.map_values(|l: Vec<char>| l@)[i as int] == code_lines@[i as int]@);
                assert(highlight_view(hl@)[i as int] == hv[i as int]);
            }
            match &hl[i] {
                Some(ranges) => {
                    let ghost p = ranges@.map_values(|q: (u8, u8, u8, u8, String)| (q.0, q.1, q.2, q.3, q.4@));
                    proof {
                        assert(hv[i as int] == Some(p));
                        assert(spans_v(spans@) =~= seq![grey("  │ "@)] + piece_spans(p.take(0)));
                    }
                    let mut j: usize = 0;
                    while j < ranges.len()
                        invariant

                            self.dark == dk,
                            j <= ranges@.len(),
                            p == ranges@.map_values(|q: (u8, u8, u8, u8, String)| (q.0, q.1, q.2, q.3, q.4@)),
                            spans_v(spans@) == seq![grey("  │ "@)] + piece_spans(p.take(j as int)),
                        decreases ranges@.len() - j,
                    {
                        let (r, g, b, bits, text) = &ranges[j];
                        let t = strip_trailing_chars(&strip_trailing_chars(&chars_of(text.as_str()), '\n'), '\r');
                        proof {
                            assert(p[j as int] == (*r, *g, *b, *bits, text@));
                            assert(p.take(j + 1).drop_last() =~= p.take(j as int));
                            assert(p.take(j + 1).last() == p[j as int]);
                        }
                        if t.len() > 0 {
                            let sp = span(string_of(&t), syntect_to_style(*r, *g, *b, *bits));
                            proof {
                                lemma_spans_v_push(spans@, sp);
                            }
                            spans.push(sp);
                        }
                        j = j + 1;
                        proof {
                            assert(spans_v(spans@) =~= seq![grey("  │ "@)] + piece_spans(p.take(j as int)));
                        }
                    }
                    proof {
                        assert(p.take(ranges@.len() as int) =~= p);
                        assert(spans_v(spans@) == code_row(hv[i as int], ls[i as int]));
                    }
                },
                None => {
                    let t = strip_trailing_chars(&strip_trailing_chars(&code_lines[i], '\n'), '\r');
                    let sp = span(string_of(&t), Style::default());
                    proof {
                        lemma_spans_v_push(spans@, sp);
                    }
                    spans.push(sp);
                    proof {
                        assert(hv[i as int] is None);
                        assert(spans_v(spans@) =~= code_row(hv[i as int], ls[i as int]));
                    }
                },
            }
            let line = Line { spans };
            proof {
                lemma_lines_v_push(self.lines@, line);
                let rows = code_rows(dk, lang0, code0);
                assert(rows[i as int] == code_row(hv[i as int], ls[i as int]));
                assert(rows.take(i + 1) =~= rows.take(i as int).push(rows[i as int]));
            }
            self.lines.push(line);
            i = i + 1;
            proof {
                let rows = code_rows(dk, lang0, code0);
                assert(lines_v(self.lines@) =~= lines_v(old_lines) + seq![code_top(lang0)] + rows.take(i as int));
            }
        }

        // Bottom border
        let mut bottom: Vec<char> = Vec::new();
        append_chars(&mut bottom, "  ╰");
        let fill = repeat_char('─', border_width.saturating_add(label_bytes).saturating_add(1));
        append_chars(&mut bottom, fill.as_str());
        bottom.push('╯');
        let mut spans: Vec<StyledSpan> = Vec::new();
        spans.push(span(string_of(&bottom), Style::fg(Color::DarkGrey)));
        proof {
            assert(bottom@ =~= "  ╰"@ + Seq::new(bottom_fill(lang0) as nat, |i: int| '─') + seq!['╯']);
            assert(spans_v(spans@) =~= code_bottom(lang0));
        }
        let line = Line { spans };
        proof {
            lemma_lines_v_push(self.lines@, line);
            let rows = code_rows(dk, lang0, code0);
            assert(rows.take(ls.len() as int) =~= rows);
            assert(lines_v(self.lines@).push(spans_v(line.spans@)) =~= lines_v(old_lines) + code_block_lines(dk, lang0, code0));
            assert(spans_v(self.current_spans@) == spans_v(old(self).current_spans@));
        }
        self.lines.push(line);
        proof {
            assert(self.code_block_content@ =~= Seq::<char>::empty());
            assert(md_model(*self).lines == lines_v(old_lines) + code_block_lines(dk, lang0, code0));
        }
    }

    fn end_heading(&mut self, level: HeadingLevel)
        ensures
            md_model(*final(self)) == heading_ended(md_model(*old(self)), level),
    {
        self.flush_line();
        self.heading_level = None;
        let ghost m1 = md_model(*self);
        let w = if self.lines.len() > 0 {
            self.lines[self.lines.len() - 1].display_width()
        } else {
            20
        };
        let n = if w > 20 { w } else { 20 };
        proof {
            if self.lines@.len() > 0 {
                let last = self.lines@[self.lines@.len() - 1];
                crate::json::lemma_spans_width(last.spans@);
                assert(lines_v(self.lines@).last() == spans_v(last.spans@));
            }
            assert(n == rule_width(m1.lines));
        }
        match level {
            HeadingLevel::H1 => {
                let mut st = Style::fg(Color::Cyan);
                st.bold = true;
                self.push_rule_line('═', n, st);
            },
            HeadingLevel::H2 => {
                self.push_rule_line('─', n, Style::fg(Color::Green));
            },
            _ => {
                proof {
                    assert(m1 == with_lines(m1, heading_rule(level, m1.lines)));
                }
            },
        }
        self.push_empty_line();
    }

    fn start_item(&mut self)
        ensures
            md_model(*final(self)) == item_started(md_model(*old(self))),
    {
        let ghost lists0 = self.list_stack@;
        let depth = self.list_stack.len().saturating_sub(1);
        let mut bullet: Vec<char> = Vec::new();
        if self.list_stack.len() > 0 {
            let mut d: usize = 0;
            while d < depth
                invariant
                    d <= depth,
                    bullet@ == Seq::new(2 * d as nat, |i: int| ' '),
                decreases depth - d,
            {
                bullet.push(' ');
                bullet.push(' ');
                d = d + 1;
                proof {
                    assert(bullet@ =~= Seq::new(2 * d as nat, |i: int| ' '));
                }
            }
            let last = self.list_stack.len() - 1;
            match self.list_stack[last] {
                ListKind::Unordered => {
                    append_chars(&mut bullet, "  • ");
                },
                ListKind::Ordered(n) => {
                    append_chars(&mut bullet, "  ");
                    let digits = decimal_u64(n);
                    crate::text::push_all(&mut bullet, &digits);
                    append_chars(&mut bullet, ". ");
                    let next = if n < u64::MAX { n + 1 } else { 0 };
                    self.list_stack.set(last, ListKind::Ordered(next));
                },
            }
        }
        proof {
            assert(bullet@ =~= item_bullet(lists0));
            assert(self.list_stack@ =~= after_item(lists0));
        }
        let mut st = Style::fg(Color::Cyan);
        st.bold = true;
        let sp = span(string_of(&bullet), st);
        proof {
            lemma_spans_v_push(self.current_spans@, sp);
        }
        self.current_spans.push(sp);
    }

    fn end_link(&mut self)
        ensures
            md_model(*final(self)) == link_ended(md_model(*old(self))),
    {
        let mut url = String::new();
        std::mem::swap(&mut url, &mut self.link_url);
        let mut t: Vec<char> = Vec::new();
        append_chars(&mut t, " (");
        append_chars(&mut t, url.as_str());
        t.push(')');
        let sp = span(string_of(&t), Style::fg(Color::DarkGrey));
        proof {
            lemma_spans_v_push(self.current_spans@, sp);
            assert(t@ =~= " ("@ + url@ + seq![')']);
        }
        self.current_spans.push(sp);
        self.in_link = false;
    }

    fn add_text(&mut self, text: &str)
        ensures
            md_model(*final(self)) == text_added(md_model(*old(self)), text@),
    {
        if self.in_code_block {
            let mut c = chars_of(self.code_block_content.as_str());
            append_chars(&mut c, text);
            self.code_block_content = string_of(&c);
        } else if self.in_link {
            let mut style = self.current_style();
            style.fg = Some(Color::Blue);
            style.underline = true;
            self.push_span(text, style);
        } else {
            let style = self.current_style();
            self.push_span(text, style);
        }
    }

    /// Handles one parse event; see [`step`].
    #[verifier::rlimit(60)]
    pub fn process(&mut self, event: &MdEvent)
        ensures
            md_model(*final(self)) == step(md_model(*old(self)), *event),
    {
        match event {
            MdEvent::StartParagraph => {},
            MdEvent::EndParagraph => {
                self.flush_line();
                self.push_empty_line();
            },
            MdEvent::StartHeading(level) => {
                self.heading_level = Some(*level);
            },
            MdEvent::EndHeading(level) => self.end_heading(*level),
            MdEvent::StartStrong => self.bold = true,
            MdEvent::EndStrong => self.bold = false,
            MdEvent::StartEmphasis => self.italic = true,
            MdEvent::EndEmphasis => self.italic = false,
            MdEvent::StartStrikethrough => self.strikethrough = true,
            MdEvent::EndStrikethrough => self.strikethrough = false,
            MdEvent::StartBlockQuote => {
                self.in_blockquote = true;
            },
            MdEvent::EndBlockQuote => {
                self.in_blockquote = false;
                self.push_empty_line();
            },
            MdEvent::StartCodeBlock(kind) => {
                self.in_code_block = true;
                self.code_block_lang = match kind {
                    Some(lang) => lang.clone(),
                    None => String::new(),
                };
                self.code_block_content = String::new();
            },
            MdEvent::EndCodeBlock => {
                self.emit_code_block();
                self.in_code_block = false;
                self.push_empty_line();
            },
            MdEvent::StartList(ordered) => {
                match ordered {
                    Some(start) => self.list_stack.push(ListKind::Ordered(*start)),
                    None => self.list_stack.push(ListKind::Unordered),
                }
            },
            MdEvent::EndList => {
                self.list_stack.pop();
                if self.list_stack.len() == 0 {
                    self.push_empty_line();
                }
            },
            MdEvent::StartItem => self.start_item(),
            MdEvent::EndItem => {
                self.flush_line();
            },
            MdEvent::StartLink(dest_url) => {
                self.in_link = true;
                self.link_url = dest_url.clone();
            },
            MdEvent::EndLink => self.end_link(),
            MdEvent::Text(text) => self.add_text(text.as_str()),
            MdEvent::Code(code) => {
                let mut t: Vec<char> = Vec::new();
                t.push(' ');
                append_chars(&mut t, code.as_str());
                t.push(' ');
                let sp = span(string_of(&t), Style::fg(Color::Yellow));
                proof {
                    lemma_spans_v_push(self.current_spans@, sp);
                    assert(t@ =~= seq![' '] + code@ + seq![' ']);
                }
                self.current_spans.push(sp);
            },
            MdEvent::SoftBreak => {
                let style = self.current_style();
                self.push_span(" ", style);
                proof {
                    reveal_strlit(" ");
                    assert(" "@ =~= seq![' ']);
                }
            },
            MdEvent::HardBreak => {
                self.flush_line();
            },
            MdEvent::Rule => {
                self.push_rule_line('─', 60, Style::fg(Color::DarkGrey));
                self.push_empty_line();
            },
            MdEvent::TaskListMarker(checked) => {
                let marker = if *checked {
                    "☑ "
                } else {
                    "☐ "
                };
                self.push_span(marker, Style::fg(Color::Cyan));
            },
            MdEvent::Other => {},
        }
    }
}

/// Renders a document given as its parse events: every event in turn, and
/// the line still being built at the end.
pub fn render_events(events: Vec<MdEvent>) -> (lines: Vec<Line>)
    ensures
        lines_v(lines@) == md_lines(events@),
{
    render_events_with(events, true)
}

/// Renders a document given as its parse events, with code highlighted for
/// a dark or a light background.
pub fn render_events_with(events: Vec<MdEvent>, dark: bool) -> (lines: Vec<Line>)
    ensures
        lines_v(lines@) == md_lines_with(events@, dark),
{
    let mut renderer = Renderer::new_for(dark);
    let mut i: usize = 0;
    while i < events.len()
        invariant
            i <= events@.len(),
            md_model(renderer) == run(start_model(dark), events@.take(i as int)),
        decreases events@.len() - i,
    {
        renderer.process(&events[i]);
        proof {
            assert(events@.take(i + 1).drop_last() =~= events@.take(i as int));
        }
        i = i + 1;
    }
    proof {
        assert(events@.take(events@.len() as int) =~= events@);
    }
    renderer.flush_line();
    renderer.lines
}

/// Renders Markdown text: parses it with strike-through, tables and task
/// lists switched on and renders the events in the order the parser gives
/// them.
pub fn render(input: &str) -> (lines: Vec<Line>)
    ensures
        lines_v(lines@) == md_lines(cmark_events(input@)),
{
    let events = parse_md_events(input);
    render_events(events)
}

/// Renders Markdown text as [`render`] does, with code highlighted in the
/// syntect theme for a dark background (`base16-ocean.dark`) or a light
/// one (`InspiredGitHub`).
pub fn render_with(input: &str, dark: bool) -> (lines: Vec<Line>)
    ensures
        lines_v(lines@) == md_lines_with(cmark_events(input@), dark),
{
    let events = parse_md_events(input);
    render_events_with(events, dark)
}

/// Strong emphasis shows: running text is bold whenever it is inside strong
/// emphasis or a heading, and only then; and text that follows a
/// `StartStrong` (outside a code block) is added as a bold span, plain or
/// linked.
pub proof fn lemma_strong_is_bold(m: MdModel, t: Seq<char>)
    ensures
        forall|f: MdFlags| #[trigger] text_style(f).bold == (f.bold || f.heading_level is Some),
        forall|f: MdFlags| #[trigger] link_style(f).bold == (f.bold || f.heading_level is Some),
        forall|f: MdFlags| #[trigger] text_style(f).italic == f.italic,
        forall|f: MdFlags| #[trigger] text_style(f).strikethrough == f.strikethrough,
        forall|f: MdFlags| #[trigger] text_style(f).dim == f.in_blockquote,
        !m.flags.in_code_block ==> step(m, MdEvent::StartEmphasis).flags.italic && step(m, MdEvent::StartStrikethrough).flags.strikethrough,
        !m.flags.in_code_block ==> {
            let m1 = step(m, MdEvent::StartStrong);
            let m2 = text_added(m1, t);
            &&& m2.spans.len() == m.spans.len() + 1
            &&& m2.spans.last().0 == t
            &&& m2.spans.last().1.bold
        },
{
}

/// Items of an ordered list are numbered on from its start: in a list
/// started at `k`, the first item shows `k.` and the item after it `k+1.`,
/// behind two spaces for each enclosing list; items of an unordered list
/// show a bullet `•`. Each item adds its marker as one span.
pub proof fn lemma_list_items_numbered(m: MdModel, k: u64, ordered: bool)
    requires
        k < u64::MAX,
    ensures
        ({
            let start = if ordered { Some(k) } else { None };
            let m1 = step(step(m, MdEvent::StartList(start)), MdEvent::StartItem);
            let m2 = step(step(m1, MdEvent::EndItem), MdEvent::StartItem);
            let indent = Seq::new((2 * m.lists.len()) as nat, |i: int| ' ');
            &&& m1.spans.last().0 == (if ordered { indent + "  "@ + decimal(k as nat) + ". "@ } else { indent + "  • "@ })
            &&& m2.spans.last().0 == (if ordered { indent + "  "@ + decimal((k + 1) as nat) + ". "@ } else { indent + "  • "@ })
            &&& m1.lists.len() == m.lists.len() + 1
            &&& m2.lists.len() == m.lists.len() + 1
        }),
{
    let start = if ordered { Some(k) } else { None };
    let m0 = step(m, MdEvent::StartList(start));
    let m1 = step(m0, MdEvent::StartItem);
    let m1b = step(m1, MdEvent::EndItem);
    assert(m0.lists.len() == m.lists.len() + 1);
    assert(m1.lists == after_item(m0.lists));
    assert(m1b.lists == m1.lists);
    if ordered {
        assert(m0.lists.last() == ListKind::Ordered(k));
        assert(m1.lists.last() == ListKind::Ordered((k + 1) as u64));
    } else {
        assert(m0.lists.last() == ListKind::Unordered);
        assert(m1.lists.last() == ListKind::Unordered);
    }
}

} // verus!
