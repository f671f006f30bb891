//! HTML export of rendered lines: every span becomes an HTML span carrying
//! its colours and attributes, every text is escaped, and links are kept
//! only where their scheme is safe.
use vstd::prelude::*;
use crate::style::{Color, Line, Style, StyledSpan};
use crate::theme::Theme;
use crate::text::{ascii_lower, chars_of, lowercase, push_str, string_of, to_lowercase, trim, trim_bounds};

verus! {

/// The HTML escape of one character.
pub open spec fn escape_char(c: char) -> Seq<char> {
    if c == '&' {
        "&amp;"@
    } else if c == '<' {
        "&lt;"@
    } else if c == '>' {
        "&gt;"@
    } else if c == '"' {
        "&quot;"@
    } else if c == '\'' {
        "&#39;"@
    } else {
        seq![c]
    }
}

/// `s` with `&`, `<`, `>`, `"` and `'` replaced by their entities.
pub open spec fn escaped(s: Seq<char>) -> Seq<char>
    decreases s.len(),
{
    if s.len() == 0 {
        Seq::empty()
    } else {
        escaped(s.drop_last()) + escape_char(s.last())
    }
}

pub fn html_escape(s: &str) -> (r: String)
    ensures
        r@ == escaped(s@),
{
    let chars = chars_of(s);
    let mut out: Vec<char> = Vec::new();
    let mut i: usize = 0;
    while i < chars.len()
        invariant
            chars@ == s@,
            i <= chars@.len(),
            out@ == escaped(chars@.subrange(0, i as int)),
        decreases chars@.len() - i,
    {
        let c = chars[i];
        proof {
            reveal_strlit("&amp;");
            reveal_strlit("&lt;");
            reveal_strlit("&gt;");
            reveal_strlit("&quot;");
            reveal_strlit("&#39;");
            let sub = chars@.subrange(0, i + 1);
            assert(sub.drop_last() =~= chars@.subrange(0, i as int));
            assert(sub.last() == c);
        }
        if c == '&' {
            push_str(&mut out, "&amp;");
        } else if c == '<' {
            push_str(&mut out, "&lt;");
        } else if c == '>' {
            push_str(&mut out, "&gt;");
        } else if c == '"' {
            push_str(&mut out, "&quot;");
        } else if c == '\'' {
            push_str(&mut out, "&#39;");
        } else {
            out.push(c);
            proof {
                assert(out@ =~= escaped(chars@.subrange(0, i as int)) + seq![c]);
            }
        }
        i = i + 1;
    }
    proof {
        assert(chars@.subrange(0, chars@.len() as int) =~= chars@);
    }
    string_of(&out)
}

/// Escaped text holds no `<`, `>`, `"` or `'`, so it can neither open a tag
/// nor close an attribute.
pub proof fn lemma_escaped_is_inert(s: Seq<char>)
    ensures
        forall|i: int| 0 <= i < escaped(s).len() ==> {
            let c = #[trigger] escaped(s)[i];
            c != '<' && c != '>' && c != '"' && c != '\''
        },
    decreases s.len(),
{
    reveal_strlit("&amp;");
    reveal_strlit("&lt;");
    reveal_strlit("&gt;");
    reveal_strlit("&quot;");
    reveal_strlit("&#39;");
    if s.len() > 0 {
        lemma_escaped_is_inert(s.drop_last());
        let a = escaped(s.drop_last());
        let b = escape_char(s.last());
        assert forall|i: int| 0 <= i < (a + b).len() implies {
            let c = #[trigger] (a + b)[i];
            c != '<' && c != '>' && c != '"' && c != '\''
        } by {
            if i < a.len() {
                assert((a + b)[i] == a[i]);
            } else {
                assert((a + b)[i] == b[i - a.len()]);
            }
        }
    }
}

pub open spec fn starts_with(s: Seq<char>, p: Seq<char>) -> bool {
    p.len() <= s.len() && s.subrange(0, p.len() as int) == p
}

pub(crate) fn has_prefix(s: &Vec<char>, p: &str) -> (b: bool)
    ensures
        b == starts_with(s@, p@),
{
    let pc = chars_of(p);
    if pc.len() > s.len() {
        return false;
    }
    let mut i: usize = 0;
    while i < pc.len()
        invariant
            pc@ == p@,
            pc@.len() <= s@.len(),
            i <= pc@.len(),
            forall|j: int| 0 <= j < i ==> s@[j] == pc@[j],
        decreases pc@.len() - i,
    {
        if s[i] != pc[i] {
            proof {
                assert(s@.subrange(0, pc@.len() as int)[i as int] != pc@[i as int]);
            }
            return false;
        }
        i = i + 1;
    }
    proof {
        assert(s@.subrange(0, pc@.len() as int) =~= pc@);
    }
    true
}

/// The text before the first `/` (all of it when there is none).
pub open spec fn first_segment(s: Seq<char>) -> Seq<char>
    decreases s.len(),
{
    if s.len() == 0 {
        s
    } else if s[0] == '/' {
        Seq::empty()
    } else {
        seq![s[0]] + first_segment(s.drop_first())
    }
}

/// A relative reference: no `:` before the first `/`.
pub open spec fn is_relative(s: Seq<char>) -> bool {
    !first_segment(s).contains(':')
}

fn relative(s: &Vec<char>) -> (b: bool)
    ensures
        b == is_relative(s@),
{
    let mut i: usize = 0;
    proof {
        assert(s@.subrange(0, s@.len() as int) =~= s@);
        assert(s@.subrange(0, 0) + first_segment(s@) =~= first_segment(s@));
    }
    while i < s.len() && s[i] != '/'
        invariant
            i <= s@.len(),
            forall|j: int| 0 <= j < i ==> s@[j] != '/',
            forall|j: int| 0 <= j < i ==> s@[j] != ':',
            first_segment(s@) == s@.subrange(0, i as int) + first_segment(s@.subrange(i as int, s@.len() as int)),
        decreases s@.len() - i,
    {
        if s[i] == ':' {
            proof {
                let rest = s@.subrange(i as int, s@.len() as int);
                assert(first_segment(rest) == seq![':'] + first_segment(rest.drop_first()));
                assert(first_segment(s@)[i as int] == ':');
                assert(first_segment(s@).contains(':'));
            }
            return false;
        }
        proof {
            let rest = s@.subrange(i as int, s@.len() as int);
            assert(rest.drop_first() =~= s@.subrange(i + 1, s@.len() as int));
            assert(first_segment(rest) == seq![s@[i as int]] + first_segment(rest.drop_first()));
            assert(s@.subrange(0, i as int) + seq![s@[i as int]] =~= s@.subrange(0, i + 1));
        }
        i = i + 1;
    }
    proof {
        let rest = s@.subrange(i as int, s@.len() as int);
        assert(first_segment(rest) =~= Seq::<char>::empty());
        assert(first_segment(s@) =~= s@.subrange(0, i as int));
    }
    true
}

/// The verdict on a link target: safe schemes, in-page anchors and
/// relative references pass; `javascript:`, `vbscript:` and `data:` do not.
pub open spec fn safe_url(url: Seq<char>) -> bool {
    let t = trim(url);
    let lower = lowercase(t);
    if starts_with(lower, "http://"@) || starts_with(lower, "https://"@) || starts_with(lower, "mailto:"@)
        || starts_with(t, "#"@) {
        true
    } else if starts_with(lower, "javascript:"@) || starts_with(lower, "vbscript:"@) || starts_with(lower, "data:"@) {
        false
    } else {
        is_relative(lower)
    }
}

/// The verdict on an image source: web URLs, `data:image/` and relative
/// references pass; `javascript:`, `vbscript:` and other `data:` do not.
pub open spec fn safe_img_src(url: Seq<char>) -> bool {
    let lower = lowercase(trim(url));
    if starts_with(lower, "http://"@) || starts_with(lower, "https://"@) || starts_with(lower, "data:image/"@) {
        true
    } else if starts_with(lower, "javascript:"@) || starts_with(lower, "vbscript:"@) || starts_with(lower, "data:"@) {
        false
    } else {
        is_relative(lower)
    }
}

fn trimmed(url: &str) -> (t: Vec<char>)
    ensures
        t@ == trim(url@),
{
    let chars = chars_of(url);
    let (lo, hi) = trim_bounds(&chars);
    crate::text::slice_chars(&chars, lo, hi)
}

/// Whether `url` may stand in `<a href>`; see [`safe_url`].
pub fn is_safe_url(url: &str) -> (b: bool)
    ensures
        b == safe_url(url@),
{
    let t = trimmed(url);
    let t_str = string_of(&t);
    let lower = chars_of(to_lowercase(t_str.as_str()).as_str());
    if has_prefix(&lower, "http://") || has_prefix(&lower, "https://") || has_prefix(&lower, "mailto:")
        || has_prefix(&t, "#") {
        return true;
    }
    if has_prefix(&lower, "javascript:") || has_prefix(&lower, "vbscript:") || has_prefix(&lower, "data:") {
        return false;
    }
    relative(&lower)
}

/// Whether `url` may stand in `<img src>`; see [`safe_img_src`].
pub fn is_safe_img_src(url: &str) -> (b: bool)
    ensures
        b == safe_img_src(url@),
{
    let t = trimmed(url);
    let t_str = string_of(&t);
    let lower = chars_of(to_lowercase(t_str.as_str()).as_str());
    if has_prefix(&lower, "http://") || has_prefix(&lower, "https://") || has_prefix(&lower, "data:image/") {
        return true;
    }
    if has_prefix(&lower, "javascript:") || has_prefix(&lower, "vbscript:") || has_prefix(&lower, "data:") {
        return false;
    }
    relative(&lower)
}

/// An ASCII link target that starts with `javascript:` in any letter case
/// is never let through.
pub proof fn lemma_script_links_refused(url: Seq<char>)
    requires
        forall|i: int| 0 <= i < trim(url).len() ==> (#[trigger] trim(url)[i] as u32) < 128,
        lowercase(trim(url)) == trim(url).map_values(|c: char| ascii_lower(c)),
        starts_with(lowercase(trim(url)), "javascript:"@),
    ensures
        !safe_url(url),
        !safe_img_src(url),
{
    reveal_strlit("javascript:");
    reveal_strlit("http://");
    reveal_strlit("https://");
    reveal_strlit("mailto:");
    reveal_strlit("#");
    reveal_strlit("data:image/");
    let t = trim(url);
    let lower = lowercase(t);
    assert(lower.subrange(0, 11) == "javascript:"@);
    assert(lower.subrange(0, 11)[0] == 'j');
    assert(lower[0] == 'j');
    assert(t[0] != '#') by {
        assert(lower[0] == ascii_lower(t[0]));
    }
    assert(!starts_with(t, "#"@)) by {
        if starts_with(t, "#"@) {
            assert(t.subrange(0, 1)[0] == '#');
        }
    }
    assert(!starts_with(lower, "http://"@)) by {
        if starts_with(lower, "http://"@) {
            assert(lower.subrange(0, 7)[0] == 'h');
        }
    }
    assert(!starts_with(lower, "https://"@)) by {
        if starts_with(lower, "https://"@) {
            assert(lower.subrange(0, 8)[0] == 'h');
        }
    }
    assert(!starts_with(lower, "mailto:"@)) by {
        if starts_with(lower, "mailto:"@) {
            assert(lower.subrange(0, 7)[0] == 'm');
        }
    }
    assert(!starts_with(lower, "data:image/"@)) by {
        if starts_with(lower, "data:image/"@) {
            assert(lower.subrange(0, 11)[0] == 'd');
        }
    }
}

/// The two lower-case hex digits of a byte.
pub open spec fn hex_byte(b: u8) -> Seq<char> {
    seq![hex_digit((b / 16) as nat), hex_digit((b % 16) as nat)]
}

pub open spec fn hex_digit(d: nat) -> char {
    if d < 10 {
        (('0' as u32) + d) as char
    } else {
        (('a' as u32) + d - 10) as char
    }
}

fn hex_digit_char(d: u8) -> (c: char)
    requires
        d < 16,
    ensures
        c == hex_digit(d as nat),
{
    if d < 10 {
        (('0' as u8) + d) as char
    } else {
        (('a' as u8) + d - 10) as char
    }
}

/// A colour as CSS: `#rrggbb` for an RGB colour, black otherwise.
pub open spec fn css_color(c: Color) -> Seq<char> {
    match c {
        Color::Rgb { r, g, b } => seq!['#'] + hex_byte(r) + hex_byte(g) + hex_byte(b),
        _ => "#000"@,
    }
}

pub fn color_css(c: Color) -> (s: String)
    ensures
        s@ == css_color(c),
{
    match c {
        Color::Rgb { r, g, b } => {
            let mut out: Vec<char> = Vec::new();
            out.push('#');
            out.push(hex_digit_char(r / 16));
            out.push(hex_digit_char(r % 16));
            out.push(hex_digit_char(g / 16));
            out.push(hex_digit_char(g % 16));
            out.push(hex_digit_char(b / 16));
            out.push(hex_digit_char(b % 16));
            proof {
                assert(out@ =~= seq!['#'] + hex_byte(r) + hex_byte(g) + hex_byte(b));
            }
            string_of(&out)
        },
        _ => "#000".to_string(),
    }
}


/// The CSS declarations of a span's style, in order.
pub open spec fn style_decls(st: Style) -> Seq<Seq<char>> {
    let a: Seq<Seq<char>> = match st.fg {
        Some(c) => seq!["color:"@ + css_color(c)],
        None => Seq::empty(),
    };
    let b: Seq<Seq<char>> = match st.bg {
        Some(c) => seq!["background:"@ + css_color(c)],
        None => Seq::empty(),
    };
    let c: Seq<Seq<char>> = if st.bold { seq!["font-weight:bold"@] } else { Seq::empty() };
    let d: Seq<Seq<char>> = if st.italic { seq!["font-style:italic"@] } else { Seq::empty() };
    let e: Seq<Seq<char>> = if st.underline && st.strikethrough {
        seq!["text-decoration:underline line-through"@]
    } else if st.underline {
        seq!["text-decoration:underline"@]
    } else if st.strikethrough {
        seq!["text-decoration:line-through"@]
    } else {
        Seq::empty()
    };
    let f: Seq<Seq<char>> = if st.dim { seq!["opacity:0.5"@] } else { Seq::empty() };
    a + b + c + d + e + f
}

/// The declarations joined by `;`.
pub open spec fn joined(ds: Seq<Seq<char>>) -> Seq<char>
    decreases ds.len(),
{
    if ds.len() == 0 {
        Seq::empty()
    } else if ds.len() == 1 {
        ds[0]
    } else {
        joined(ds.drop_last()) + seq![';'] + ds.last()
    }
}

/// A span as HTML: its escaped text, inside a styled `<span>` when it has
/// any style, and inside a link when it carries a safe one.
pub open spec fn span_html(sp: StyledSpan) -> Seq<char> {
    let ds = style_decls(sp.style);
    let text = escaped(sp.text@);
    if ds.len() == 0 {
        text
    } else {
        let inner = match sp.style.link_url {
            Some(u) => if safe_url(u@) {
                "<a href='"@ + escaped(u@) + "' style='color:inherit;text-decoration:inherit'>"@ + text + "</a>"@
            } else {
                text
            },
            None => text,
        };
        "<span style='"@ + joined(ds) + "'>"@ + inner + "</span>"@
    }
}

pub open spec fn spans_html(spans: Seq<StyledSpan>) -> Seq<char>
    decreases spans.len(),
{
    if spans.len() == 0 {
        Seq::empty()
    } else {
        spans_html(spans.drop_last()) + span_html(spans.last())
    }
}

/// A line as a `div`; an empty line holds a non-breaking space.
pub open spec fn line_html(l: Line) -> Seq<char> {
    "<div class='line'>"@ + (if l.spans@.len() == 0 { "&nbsp;"@ } else { Seq::empty() }) + spans_html(l.spans@) + "</div>\n"@
}

pub open spec fn lines_html(lines: Seq<Line>) -> Seq<char>
    decreases lines.len(),
{
    if lines.len() == 0 {
        Seq::empty()
    } else {
        lines_html(lines.drop_last()) + line_html(lines.last())
    }
}

/// The page head, with the theme's background and text colours.
pub open spec fn page_head(theme: Theme) -> Seq<char> {
    "<!DOCTYPE html>\n<html><head>\n<meta charset='utf-8'>\n"@
        + "<style>body { font-family: 'SF Mono','Menlo','Consolas',monospace; background:"@ + css_color(theme.bg)
        + "; color:"@ + css_color(theme.fg)
        + "; padding:2em; line-height:1.4; } pre { margin:0; } .line { white-space:pre; min-height:1.2em; }</style>\n"@
        + "</head><body>\n"@
}

/// The whole HTML document for `lines`.
pub open spec fn html_page(lines: Seq<Line>, theme: Theme) -> Seq<char> {
    page_head(theme) + lines_html(lines) + "</body></html>\n"@
}

fn push_decl(ds: &mut Vec<Vec<char>>, a: &str, b: &String)
    ensures
        final(ds)@.map_values(|v: Vec<char>| v@) == old(ds)@.map_values(|v: Vec<char>| v@).push(a@ + b@),
{
    let mut v: Vec<char> = Vec::new();
    push_str(&mut v, a);
    push_str(&mut v, b.as_str());
    ds.push(v);
    proof {
        assert(final(ds)@.map_values(|v: Vec<char>| v@) =~= old(ds)@.map_values(|v: Vec<char>| v@).push(a@ + b@));
    }
}

fn push_decl_str(ds: &mut Vec<Vec<char>>, a: &str)
    ensures
        final(ds)@.map_values(|v: Vec<char>| v@) == old(ds)@.map_values(|v: Vec<char>| v@).push(a@),
{
    let mut v: Vec<char> = Vec::new();
    push_str(&mut v, a);
    ds.push(v);
    proof {
        assert(final(ds)@.map_values(|v: Vec<char>| v@) =~= old(ds)@.map_values(|v: Vec<char>| v@).push(a@));
    }
}

fn decls_of(st: &Style) -> (ds: Vec<Vec<char>>)
    ensures
        ds@.map_values(|v: Vec<char>| v@) == style_decls(*st),
{
    let mut ds: Vec<Vec<char>> = Vec::new();
    proof {
        assert(ds@.map_values(|v: Vec<char>| v@) =~= Seq::<Seq<char>>::empty());
    }
    match st.fg {
        Some(c) => push_decl(&mut ds, "color:", &color_css(c)),
        None => {},
    }
    match st.bg {
        Some(c) => push_decl(&mut ds, "background:", &color_css(c)),
        None => {},
    }
    if st.bold {
        push_decl_str(&mut ds, "font-weight:bold");
    }
    if st.italic {
        push_decl_str(&mut ds, "font-style:italic");
    }
    if st.underline && st.strikethrough {
        push_decl_str(&mut ds, "text-decoration:underline line-through");
    } else if st.underline {
        push_decl_str(&mut ds, "text-decoration:underline");
    } else if st.strikethrough {
        push_decl_str(&mut ds, "text-decoration:line-through");
    }
    if st.dim {
        push_decl_str(&mut ds, "opacity:0.5");
    }
    proof {
        assert(ds@.map_values(|v: Vec<char>| v@) =~= style_decls(*st));
    }
    ds
}

fn push_joined(out: &mut Vec<char>, ds: &Vec<Vec<char>>)
    ensures
        final(out)@ == old(out)@ + joined(ds@.map_values(|v: Vec<char>| v@)),
{
    let ghost dv = ds@.map_values(|v: Vec<char>| v@);
    let mut i: usize = 0;
    proof {
        assert(dv.subrange(0, 0) =~= Seq::<Seq<char>>::empty());
        assert(old(out)@ + Seq::<char>::empty() =~= old(out)@);
    }
    while i < ds.len()
        invariant
            dv == ds@.map_values(|v: Vec<char>| v@),
            i <= ds@.len(),
            out@ == old(out)@ + joined(dv.subrange(0, i as int)),
        decreases ds@.len() - i,
    {
        let ghost o0 = out@;
        if i > 0 {
            out.push(';');
        }
        crate::text::push_all(out, &ds[i]);
        proof {
            let sub = dv.subrange(0, i + 1);
            assert(sub.drop_last() =~= dv.subrange(0, i as int));
            assert(sub.last() == ds@[i as int]@);
            if i == 0 {
                assert(joined(sub) == sub[0]);
                assert(out@ =~= old(out)@ + joined(sub));
            } else {
                assert(out@ =~= old(out)@ + joined(sub));
            }
        }
        i = i + 1;
    }
    proof {
        assert(dv.subrange(0, ds@.len() as int) =~= dv);
    }
}

fn push_span_html(out: &mut Vec<char>, sp: &StyledSpan)
    ensures
        final(out)@ == old(out)@ + span_html(*sp),
{
    let ds = decls_of(&sp.style);
    let text = html_escape(sp.text.as_str());
    if ds.len() == 0 {
        push_str(out, text.as_str());
        return;
    }
    push_str(out, "<span style='");
    push_joined(out, &ds);
    push_str(out, "'>");
    match &sp.style.link_url {
        Some(url) => {
            if is_safe_url(url.as_str()) {
                push_str(out, "<a href='");
                let eu = html_escape(url.as_str());
                push_str(out, eu.as_str());
                push_str(out, "' style='color:inherit;text-decoration:inherit'>");
                push_str(out, text.as_str());
                push_str(out, "</a>");
            } else {
                push_str(out, text.as_str());
            }
        },
        None => push_str(out, text.as_str()),
    }
    push_str(out, "</span>");
    proof {
        assert(out@ =~= old(out)@ + span_html(*sp));
    }
}

/// The HTML document for rendered lines, styled with the theme's colours.
pub fn to_html_page(lines: &Vec<Line>, theme: &Theme) -> (page: String)
    ensures
        page@ == html_page(lines@, *theme),
{
    let mut out: Vec<char> = Vec::new();
    push_str(&mut out, "<!DOCTYPE html>\n<html><head>\n<meta charset='utf-8'>\n");
    push_str(&mut out, "<style>body { font-family: 'SF Mono','Menlo','Consolas',monospace; background:");
    push_str(&mut out, color_css(theme.bg).as_str());
    push_str(&mut out, "; color:");
    push_str(&mut out, color_css(theme.fg).as_str());
    push_str(&mut out, "; padding:2em; line-height:1.4; } pre { margin:0; } .line { white-space:pre; min-height:1.2em; }</style>\n");
    push_str(&mut out, "</head><body>\n");
    let ghost head = out@;
    proof {
        assert(head =~= page_head(*theme));
        assert(lines@.subrange(0, 0) =~= Seq::<Line>::empty());
        assert(head + Seq::<char>::empty() =~= head);
    }
    let mut k: usize = 0;
    while k < lines.len()
        invariant
            k <= lines@.len(),
            out@ == head + lines_html(lines@.subrange(0, k as int)),
        decreases lines@.len() - k,
    {
        let line = &lines[k];
        let ghost o0 = out@;
        push_str(&mut out, "<div class='line'>");
        if line.spans.len() == 0 {
            push_str(&mut out, "&nbsp;");
        }
        let ghost o1 = out@;
        let mut j: usize = 0;
        proof {
            assert(line.spans@.subrange(0, 0) =~= Seq::<StyledSpan>::empty());
            assert(o1 + Seq::<char>::empty() =~= o1);
        }
        while j < line.spans.len()
            invariant
                j <= line.spans@.len(),
                out@ == o1 + spans_html(line.spans@.subrange(0, j as int)),
            decreases line.spans@.len() - j,
        {
            push_span_html(&mut out, &line.spans[j]);
            proof {
                let sub = line.spans@.subrange(0, j + 1);
                assert(sub.drop_last() =~= line.spans@.subrange(0, j as int));
                assert(sub.last() == line.spans@[j as int]);
                assert(out@ =~= o1 + spans_html(sub));
            }
            j = j + 1;
        }
        push_str(&mut out, "</div>\n");
        proof {
            assert(line.spans@.subrange(0, line.spans@.len() as int) =~= line.spans@);
            let sub = lines@.subrange(0, k + 1);
            assert(sub.drop_last() =~= lines@.subrange(0, k as int));
            assert(sub.last() == lines@[k as int]);
            assert(out@ =~= head + lines_html(sub));
        }
        k = k + 1;
    }
    push_str(&mut out, "</body></html>\n");
    proof {
        assert(lines@.subrange(0, lines@.len() as int) =~= lines@);
        assert(out@ =~= html_page(lines@, *theme));
    }
    string_of(&out)
}

/// A span is exported bold exactly when its style is: `font-weight:bold`
/// is among the declarations of a style iff the style is bold, and
/// likewise `font-style:italic` iff it is italic.
#[verifier::rlimit(30)]
pub proof fn lemma_bold_is_exported(st: Style)
    ensures
        style_decls(st).contains("font-weight:bold"@) <==> st.bold,
        style_decls(st).contains("font-style:italic"@) <==> st.italic,
{
    reveal_strlit("font-weight:bold");
    reveal_strlit("font-style:italic");
    reveal_strlit("color:");
    reveal_strlit("background:");
    reveal_strlit("text-decoration:underline line-through");
    reveal_strlit("text-decoration:underline");
    reveal_strlit("text-decoration:line-through");
    reveal_strlit("opacity:0.5");
    let bold = "font-weight:bold"@;
    let italic = "font-style:italic"@;
    let a: Seq<Seq<char>> = match st.fg {
        Some(c) => seq!["color:"@ + css_color(c)],
        None => Seq::empty(),
    };
    let b: Seq<Seq<char>> = match st.bg {
        Some(c) => seq!["background:"@ + css_color(c)],
        None => Seq::empty(),
    };
    let c: Seq<Seq<char>> = if st.bold { seq![bold] } else { Seq::empty() };
    let d: Seq<Seq<char>> = if st.italic { seq![italic] } else { Seq::empty() };
    let e: Seq<Seq<char>> = if st.underline && st.strikethrough {
        seq!["text-decoration:underline line-through"@]
    } else if st.underline {
        seq!["text-decoration:underline"@]
    } else if st.strikethrough {
        seq!["text-decoration:line-through"@]
    } else {
        Seq::empty()
    };
    let f: Seq<Seq<char>> = if st.dim { seq!["opacity:0.5"@] } else { Seq::empty() };
    let ds = style_decls(st);
    assert(ds == a + b + c + d + e + f);
    let others = a + b + e + f;
    assert forall|k: int| 0 <= k < others.len() implies others[k] != bold && others[k] != italic by {
        assert(others[k].len() > 0);
        assert(others[k][0] != 'f');
    }
    assert(bold[5] != italic[5]);
    let n1: int = (a.len() + b.len()) as int;
    if st.bold {
        assert(ds[n1] == bold);
    }
    if st.italic {
        assert(ds[n1 + c.len() as int] == italic);
    }
    assert forall|k: int| 0 <= k < ds.len() implies (ds[k] == bold ==> st.bold) && (ds[k] == italic ==> st.italic) by {
        if k < n1 {
            assert(ds[k] == others[k]);
        } else if k < n1 + c.len() {
        } else if k < n1 + c.len() + d.len() {
        } else {
            assert(ds[k] == others[k - c.len() - d.len()]);
        }
    }
}

} // verus!
