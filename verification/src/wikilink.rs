//! Rewriting of Obsidian-style `[[wikilinks]]` and `![[embeds]]` into
//! standard Markdown links and images.
//!
//! The rewrite works line by line. Lines inside fenced code blocks are copied
//! unchanged, and so are inline code spans, so that a literal `[[...]]` shown
//! as a syntax example stays as it is.
//!
//! The two link forms are recognised by this grammar (`[^...]` is one
//! character outside the brackets, `+` a non-empty run, runs are greedy):
//!
//! ```text
//! embed := "![[" target=[^]|]+ ( "|" label=[^]]+ )? "]]"
//! link  := "[["  target=[^]|#]+ ( "#" heading=[^]|]+ )? ( "|" label=[^]]+ )? "]]"
//! ```
//!
//! Embeds are rewritten first, over the whole segment, then links; matches
//! are taken leftmost first and never overlap.
use std::borrow::Cow;
use vstd::prelude::*;
use crate::text::{
    chars_of, in_class, is_ascii_alnum, is_ascii_upper, is_run_end, is_ws, ascii_lower, is_whitespace,
    lemma_run_end_unique, lemma_ws_lead_unique, push_all, push_range, push_str, run_end, scan_run,
    skip_ws, slice_chars, string_of, to_ascii_lower, trim, trim_bounds, trim_start, ws_lead,
    CharClass,
};

verus! {

// ───── escaping ─────

pub open spec fn escape_label_char(c: char) -> Seq<char> {
    if c == '\\' || c == '[' || c == ']' {
        seq!['\\', c]
    } else {
        seq![c]
    }
}

pub open spec fn escape_dest_char(c: char) -> Seq<char> {
    if c == '\\' || c == '<' || c == '>' {
        seq!['\\', c]
    } else {
        seq![c]
    }
}

/// Backslash-escapes `\`, `[` and `]`, the characters that delimit a
/// CommonMark link label.
pub open spec fn escape_label(s: Seq<char>) -> Seq<char>
    decreases s.len(),
{
    if s.len() == 0 {
        seq![]
    } else {
        escape_label(s.drop_last()) + escape_label_char(s.last())
    }
}

/// Backslash-escapes `\`, `<` and `>`, the characters that delimit a
/// CommonMark link destination written inside `<...>`.
pub open spec fn escape_dest(s: Seq<char>) -> Seq<char>
    decreases s.len(),
{
    if s.len() == 0 {
        seq![]
    } else {
        escape_dest(s.drop_last()) + escape_dest_char(s.last())
    }
}

/// The anchor form of a heading: ASCII letters and digits lower-cased, `-`
/// and `_` kept, whitespace turned into `-`, other ASCII punctuation dropped,
/// and non-ASCII characters kept as they are.
pub open spec fn slug_char(c: char) -> Seq<char> {
    if is_ascii_alnum(c) {
        seq![ascii_lower(c)]
    } else if c == '-' || c == '_' {
        seq![c]
    } else if is_ws(c) {
        seq!['-']
    } else if (c as u32) < 128 {
        seq![]
    } else {
        seq![c]
    }
}

pub open spec fn slug(s: Seq<char>) -> Seq<char>
    decreases s.len(),
{
    if s.len() == 0 {
        seq![]
    } else {
        slug(s.drop_last()) + slug_char(s.last())
    }
}

fn push_escape_label(out: &mut Vec<char>, s: &Vec<char>)
    ensures
        final(out)@ == old(out)@ + escape_label(s@),
{
    let mut i: usize = 0;
    while i < s.len()
        invariant
            i <= s.len(),
            out@ == old(out)@ + escape_label(s@.take(i as int)),
        decreases s.len() - i,
    {
        let c = s[i];
        if c == '\\' || c == '[' || c == ']' {
            out.push('\\');
        }
        out.push(c);
        assert(s@.take(i + 1).drop_last() =~= s@.take(i as int));
        i = i + 1;
        assert(out@ =~= old(out)@ + escape_label(s@.take(i as int)));
    }
    assert(s@.take(s.len() as int) =~= s@);
}

fn push_escape_dest(out: &mut Vec<char>, s: &Vec<char>)
    ensures
        final(out)@ == old(out)@ + escape_dest(s@),
{
    let mut i: usize = 0;
    while i < s.len()
        invariant
            i <= s.len(),
            out@ == old(out)@ + escape_dest(s@.take(i as int)),
        decreases s.len() - i,
    {
        let c = s[i];
        if c == '\\' || c == '<' || c == '>' {
            out.push('\\');
        }
        out.push(c);
        assert(s@.take(i + 1).drop_last() =~= s@.take(i as int));
        i = i + 1;
        assert(out@ =~= old(out)@ + escape_dest(s@.take(i as int)));
    }
    assert(s@.take(s.len() as int) =~= s@);
}

fn push_slug(out: &mut Vec<char>, s: &Vec<char>)
    ensures
        final(out)@ == old(out)@ + slug(s@),
{
    let mut i: usize = 0;
    while i < s.len()
        invariant
            i <= s.len(),
            out@ == old(out)@ + slug(s@.take(i as int)),
        decreases s.len() - i,
    {
        let c = s[i];
        if ('a' <= c && c <= 'z') || ('A' <= c && c <= 'Z') || ('0' <= c && c <= '9') {
            out.push(to_ascii_lower(c));
        } else if c == '-' || c == '_' {
            out.push(c);
        } else if is_whitespace(c) {
            out.push('-');
        } else if (c as u32) < 128 {
        } else {
            out.push(c);
        }
        assert(s@.take(i + 1).drop_last() =~= s@.take(i as int));
        i = i + 1;
        assert(out@ =~= old(out)@ + slug(s@.take(i as int)));
    }
    assert(s@.take(s.len() as int) =~= s@);
}

/// The anchor a heading is linked by; see [`slug`].
pub fn heading_to_slug(text: &str) -> (r: String)
    ensures
        r@ == slug(text@),
{
    let v = chars_of(text);
    let mut out: Vec<char> = Vec::new();
    push_slug(&mut out, &v);
    assert(out@ =~= slug(v@));
    string_of(&out)
}

// ───── matching ─────

/// `trim(s)`, or nothing when that is empty.
pub open spec fn nonempty_trim(s: Seq<char>) -> Option<Seq<char>> {
    if trim(s).len() > 0 {
        Some(trim(s))
    } else {
        None
    }
}

pub open spec fn range_view(r: Option<(usize, usize)>) -> Option<(int, int)> {
    match r {
        Some((a, b)) => Some((a as int, b as int)),
        None => None,
    }
}

/// An embed starting at `i`: the target's bounds, the label's bounds if
/// there is a label, and the end of the match.
pub open spec fn embed_match(s: Seq<char>, i: int) -> Option<(int, int, Option<(int, int)>, int)> {
    if 0 <= i && i + 3 <= s.len() && s[i] == '!' && s[i + 1] == '[' && s[i + 2] == '[' {
        let a = i + 3;
        let b = run_end(s, a, CharClass::NotCloseOrPipe);
        if !(a < b <= s.len()) {
            None
        } else if s.len() - b >= 2 && s[b] == ']' && s[b + 1] == ']' {
            Some((a, b, None, b + 2))
        } else if b < s.len() && s[b] == '|' {
            let c = b + 1;
            let d = run_end(s, c, CharClass::NotClose);
            if c < d && s.len() - d >= 2 && s[d] == ']' && s[d + 1] == ']' {
                Some((a, b, Some((c, d)), d + 2))
            } else {
                None
            }
        } else {
            None
        }
    } else {
        None
    }
}

/// What an embed is rewritten to: `![alt](<target>)`, where the alt text is
/// the label, or the target when the label is missing or blank.
pub open spec fn embed_text(s: Seq<char>, a: int, b: int, label: Option<(int, int)>) -> Seq<char> {
    let target = trim(s.subrange(a, b));
    let alt = match label {
        Some((c, d)) => match nonempty_trim(s.subrange(c, d)) {
            Some(l) => l,
            None => target,
        },
        None => target,
    };
    seq!['!', '['] + escape_label(alt) + seq![']', '(', '<'] + escape_dest(target) + seq!['>', ')']
}

/// The rest of the text from `i` on, with every embed rewritten.
pub open spec fn embed_pass(s: Seq<char>, i: int) -> Seq<char>
    decreases s.len() - i,
{
    if i < 0 || i >= s.len() {
        seq![]
    } else {
        match embed_match(s, i) {
            Some((a, b, l, e)) => if i < e <= s.len() {
                embed_text(s, a, b, l) + embed_pass(s, e)
            } else {
                seq![]
            },
            None => seq![s[i]] + embed_pass(s, i + 1),
        }
    }
}

/// The end of a wikilink once its target (`a..b`) and optional heading are
/// read: the optional label, then the closing `]]`.
pub open spec fn link_tail(s: Seq<char>, a: int, b: int, h: Option<(int, int)>, p: int) -> Option<
    (int, int, Option<(int, int)>, Option<(int, int)>, int),
> {
    if 0 <= p < s.len() && s[p] == '|' {
        let c = p + 1;
        let d = run_end(s, c, CharClass::NotClose);
        if c < d && s.len() - d >= 2 && s[d] == ']' && s[d + 1] == ']' {
            Some((a, b, h, Some((c, d)), d + 2))
        } else {
            None
        }
    } else if 0 <= p && p + 1 < s.len() && s[p] == ']' && s[p + 1] == ']' {
        Some((a, b, h, None, p + 2))
    } else {
        None
    }
}

/// A wikilink starting at `i`: target, heading and label bounds, and the
/// end of the match.
pub open spec fn link_match(s: Seq<char>, i: int) -> Option<
    (int, int, Option<(int, int)>, Option<(int, int)>, int),
> {
    if 0 <= i && i + 2 <= s.len() && s[i] == '[' && s[i + 1] == '[' {
        let a = i + 2;
        let b = run_end(s, a, CharClass::NotClosePipeOrHash);
        if !(a < b <= s.len()) {
            None
        } else if b < s.len() && s[b] == '#' {
            let c = b + 1;
            let d = run_end(s, c, CharClass::NotCloseOrPipe);
            if c < d <= s.len() {
                link_tail(s, a, b, Some((c, d)), d)
            } else {
                None
            }
        } else {
            link_tail(s, a, b, None, b)
        }
    } else {
        None
    }
}

/// The text a wikilink shows: its label, or its target when the label is
/// missing or blank.
pub open spec fn link_display(s: Seq<char>, a: int, b: int, l: Option<(int, int)>) -> Seq<char> {
    let target = trim(s.subrange(a, b));
    match l {
        Some((c, d)) => match nonempty_trim(s.subrange(c, d)) {
            Some(x) => x,
            None => target,
        },
        None => target,
    }
}

/// `#` and the slug of the heading, when the link names a non-blank one.
pub open spec fn link_anchor(s: Seq<char>, h: Option<(int, int)>) -> Seq<char> {
    match h {
        Some((c, d)) => match nonempty_trim(s.subrange(c, d)) {
            Some(x) => seq!['#'] + slug(x),
            None => seq![],
        },
        None => seq![],
    }
}

/// What a wikilink is rewritten to: `[display](<wikilink:target#anchor>)`.
pub open spec fn link_text(
    s: Seq<char>,
    a: int,
    b: int,
    h: Option<(int, int)>,
    l: Option<(int, int)>,
) -> Seq<char> {
    seq!['['] + escape_label(link_display(s, a, b, l)) + seq![']', '(', '<'] + wikilink_scheme()
        + escape_dest(trim(s.subrange(a, b))) + link_anchor(s, h) + seq!['>', ')']
}

pub open spec fn wikilink_scheme() -> Seq<char> {
    seq!['w', 'i', 'k', 'i', 'l', 'i', 'n', 'k', ':']
}

/// The rest of the text from `i` on, with every wikilink rewritten.
pub open spec fn link_pass(s: Seq<char>, i: int) -> Seq<char>
    decreases s.len() - i,
{
    if i < 0 || i >= s.len() {
        seq![]
    } else {
        match link_match(s, i) {
            Some((a, b, h, l, e)) => if i < e <= s.len() {
                link_text(s, a, b, h, l) + link_pass(s, e)
            } else {
                seq![]
            },
            None => seq![s[i]] + link_pass(s, i + 1),
        }
    }
}

/// A stretch of text outside code: embeds are rewritten, then wikilinks.
pub open spec fn rewrite_prose(s: Seq<char>) -> Seq<char> {
    link_pass(embed_pass(s, 0), 0)
}

fn find_embed(s: &Vec<char>, i: usize) -> (r: Option<(usize, usize, Option<(usize, usize)>, usize)>)
    requires
        i < s.len(),
    ensures
        match r {
            Some((a, b, l, e)) => embed_match(s@, i as int) == Some(
                (a as int, b as int, range_view(l), e as int),
            ) && a <= b <= s.len() && i < e <= s.len() && match l {
                Some((c, d)) => c <= d <= s.len(),
                None => true,
            },
            None => embed_match(s@, i as int) is None,
        },
{
    if !(s.len() - i >= 3 && s[i] == '!' && s[i + 1] == '[' && s[i + 2] == '[') {
        return None;
    }
    let a = i + 3;
    let b = scan_run(s, a, CharClass::NotCloseOrPipe);
    if b == a {
        return None;
    }
    if s.len() - b >= 2 && s[b] == ']' && s[b + 1] == ']' {
        return Some((a, b, None, b + 2));
    }
    if b < s.len() && s[b] == '|' {
        let c = b + 1;
        let d = scan_run(s, c, CharClass::NotClose);
        if c < d && s.len() - d >= 2 && s[d] == ']' && s[d + 1] == ']' {
            return Some((a, b, Some((c, d)), d + 2));
        }
    }
    None
}

/// Appends `nonempty_trim(s[lo..hi])` or, when that is empty, `fallback`.
fn trimmed_or(s: &Vec<char>, lo: usize, hi: usize, fallback: &Vec<char>) -> (r: Vec<char>)
    requires
        lo <= hi <= s.len(),
    ensures
        r@ == match nonempty_trim(s@.subrange(lo as int, hi as int)) {
            Some(x) => x,
            None => fallback@,
        },
{
    let part = slice_chars(s, lo, hi);
    let (x, y) = trim_bounds(&part);
    if x < y {
        slice_chars(&part, x, y)
    } else {
        slice_chars(fallback, 0, fallback.len())
    }
}

/// `trim(s[lo..hi])`.
fn trimmed(s: &Vec<char>, lo: usize, hi: usize) -> (r: Vec<char>)
    requires
        lo <= hi <= s.len(),
    ensures
        r@ == trim(s@.subrange(lo as int, hi as int)),
{
    let part = slice_chars(s, lo, hi);
    let (x, y) = trim_bounds(&part);
    slice_chars(&part, x, y)
}

fn push_embed_text(out: &mut Vec<char>, s: &Vec<char>, a: usize, b: usize, l: Option<(usize, usize)>)
    requires
        a <= b <= s.len(),
        match l {
            Some((c, d)) => c <= d <= s.len(),
            None => true,
        },
    ensures
        final(out)@ == old(out)@ + embed_text(s@, a as int, b as int, range_view(l)),
{
    let target = trimmed(s, a, b);
    let alt = match l {
        Some((c, d)) => trimmed_or(s, c, d, &target),
        None => slice_chars(&target, 0, target.len()),
    };
    assert(target@.subrange(0, target@.len() as int) =~= target@);
    out.push('!');
    out.push('[');
    push_escape_label(out, &alt);
    out.push(']');
    out.push('(');
    out.push('<');
    push_escape_dest(out, &target);
    out.push('>');
    out.push(')');
    assert(final(out)@ =~= old(out)@ + embed_text(s@, a as int, b as int, range_view(l)));
}

fn embed_pass_exec(s: &Vec<char>) -> (r: Vec<char>)
    ensures
        r@ == embed_pass(s@, 0),
{
    let mut out: Vec<char> = Vec::new();
    let mut i: usize = 0;
    while i < s.len()
        invariant
            i <= s.len(),
            out@ + embed_pass(s@, i as int) == embed_pass(s@, 0),
        decreases s.len() - i,
    {
        match find_embed(s, i) {
            Some((a, b, l, e)) => {
                let ghost before = out@;
                push_embed_text(&mut out, s, a, b, l);
                assert(out@ + embed_pass(s@, e as int) =~= before + embed_pass(s@, i as int));
                i = e;
            },
            None => {
                let ghost before = out@;
                out.push(s[i]);
                assert(out@ + embed_pass(s@, i + 1) =~= before + embed_pass(s@, i as int));
                i = i + 1;
            },
        }
    }
    assert(out@ =~= embed_pass(s@, 0));
    out
}

fn find_link_tail(s: &Vec<char>, a: usize, b: usize, h: Option<(usize, usize)>, p: usize) -> (r: Option<
    (usize, usize, Option<(usize, usize)>, Option<(usize, usize)>, usize),
>)
    requires
        a <= b <= p <= s.len(),
        match h {
            Some((c, d)) => c <= d <= s.len(),
            None => true,
        },
    ensures
        match r {
            Some((ra, rb, rh, l, e)) => link_tail(s@, a as int, b as int, range_view(h), p as int)
                == Some((a as int, b as int, range_view(h), range_view(l), e as int)) && ra == a
                && rb == b && rh == h && p < e <= s.len() && match l {
                Some((c, d)) => c <= d <= s.len(),
                None => true,
            },
            None => link_tail(s@, a as int, b as int, range_view(h), p as int) is None,
        },
{
    if p < s.len() && s[p] == '|' {
        let c = p + 1;
        let d = scan_run(s, c, CharClass::NotClose);
        if c < d && s.len() - d >= 2 && s[d] == ']' && s[d + 1] == ']' {
            return Some((a, b, h, Some((c, d)), d + 2));
        }
        return None;
    }
    if s.len() - p >= 2 && s[p] == ']' && s[p + 1] == ']' {
        return Some((a, b, h, None, p + 2));
    }
    None
}

fn find_link(s: &Vec<char>, i: usize) -> (r: Option<
    (usize, usize, Option<(usize, usize)>, Option<(usize, usize)>, usize),
>)
    requires
        i < s.len(),
    ensures
        match r {
            Some((a, b, h, l, e)) => link_match(s@, i as int) == Some(
                (a as int, b as int, range_view(h), range_view(l), e as int),
            ) && a <= b <= s.len() && i < e <= s.len() && match h {
                Some((c, d)) => c <= d <= s.len(),
                None => true,
            } && match l {
                Some((c, d)) => c <= d <= s.len(),
                None => true,
            },
            None => link_match(s@, i as int) is None,
        },
{
    if !(s.len() - i >= 2 && s[i] == '[' && s[i + 1] == '[') {
        return None;
    }
    let a = i + 2;
    let b = scan_run(s, a, CharClass::NotClosePipeOrHash);
    if b == a {
        return None;
    }
    if b < s.len() && s[b] == '#' {
        let c = b + 1;
        let d = scan_run(s, c, CharClass::NotCloseOrPipe);
        if c < d {
            find_link_tail(s, a, b, Some((c, d)), d)
        } else {
            None
        }
    } else {
        find_link_tail(s, a, b, None, b)
    }
}

fn anchor_of(s: &Vec<char>, h: Option<(usize, usize)>) -> (r: Vec<char>)
    requires
        match h {
            Some((c, d)) => c <= d <= s.len(),
            None => true,
        },
    ensures
        r@ == link_anchor(s@, range_view(h)),
{
    let mut anchor: Vec<char> = Vec::new();
    match h {
        Some((c, d)) => {
            let part = slice_chars(s, c, d);
            let (x, y) = trim_bounds(&part);
            if x < y {
                let hd = slice_chars(&part, x, y);
                anchor.push('#');
                push_slug(&mut anchor, &hd);
                assert(anchor@ =~= seq!['#'] + slug(hd@));
            }
        },
        None => {},
    }
    anchor
}

fn push_scheme(out: &mut Vec<char>)
    ensures
        final(out)@ == old(out)@ + wikilink_scheme(),
{
    push_str(out, "wikilink:");
    proof {
        reveal_strlit("wikilink:");
    }
    assert("wikilink:"@ =~= wikilink_scheme());
}

fn push_link_text(
    out: &mut Vec<char>,
    s: &Vec<char>,
    a: usize,
    b: usize,
    h: Option<(usize, usize)>,
    l: Option<(usize, usize)>,
)
    requires
        a <= b <= s.len(),
        match h {
            Some((c, d)) => c <= d <= s.len(),
            None => true,
        },
        match l {
            Some((c, d)) => c <= d <= s.len(),
            None => true,
        },
    ensures
        final(out)@ == old(out)@ + link_text(s@, a as int, b as int, range_view(h), range_view(l)),
{
    let target = trimmed(s, a, b);
    let display = match l {
        Some((c, d)) => trimmed_or(s, c, d, &target),
        None => slice_chars(&target, 0, target.len()),
    };
    assert(target@.subrange(0, target@.len() as int) =~= target@);
    assert(display@ == link_display(s@, a as int, b as int, range_view(l)));
    let anchor = anchor_of(s, h);
    assemble_link(out, &display, &target, &anchor);
}

fn assemble_link(out: &mut Vec<char>, display: &Vec<char>, target: &Vec<char>, anchor: &Vec<char>)
    ensures
        final(out)@ == old(out)@ + seq!['['] + escape_label(display@) + seq![']', '(', '<']
            + wikilink_scheme() + escape_dest(target@) + anchor@ + seq!['>', ')'],
{
    let ghost o0 = out@;
    out.push('[');
    push_escape_label(out, display);
    out.push(']');
    out.push('(');
    out.push('<');
    push_scheme(out);
    push_escape_dest(out, target);
    push_all(out, anchor);
    out.push('>');
    out.push(')');
    assert(out@ =~= o0 + seq!['['] + escape_label(display@) + seq![']', '(', '<']
        + wikilink_scheme() + escape_dest(target@) + anchor@ + seq!['>', ')']);
}

fn link_pass_exec(s: &Vec<char>) -> (r: Vec<char>)
    ensures
        r@ == link_pass(s@, 0),
{
    let mut out: Vec<char> = Vec::new();
    let mut i: usize = 0;
    while i < s.len()
        invariant
            i <= s.len(),
            out@ + link_pass(s@, i as int) == link_pass(s@, 0),
        decreases s.len() - i,
    {
        match find_link(s, i) {
            Some((a, b, h, l, e)) => {
                let ghost before = out@;
                push_link_text(&mut out, s, a, b, h, l);
                assert(out@ + link_pass(s@, e as int) =~= before + link_pass(s@, i as int));
                i = e;
            },
            None => {
                let ghost before = out@;
                out.push(s[i]);
                assert(out@ + link_pass(s@, i + 1) =~= before + link_pass(s@, i as int));
                i = i + 1;
            },
        }
    }
    assert(out@ =~= link_pass(s@, 0));
    out
}

/// Appends the rewrite of `s[lo..hi]` to `out`.
fn push_prose(out: &mut Vec<char>, s: &Vec<char>, lo: usize, hi: usize)
    requires
        lo <= hi <= s.len(),
    ensures
        final(out)@ == old(out)@ + rewrite_prose(s@.subrange(lo as int, hi as int)),
{
    let seg = slice_chars(s, lo, hi);
    let embeds = embed_pass_exec(&seg);
    let links = link_pass_exec(&embeds);
    push_all(out, &links);
}

// ───── inline code spans ─────

/// Start of the first maximal run of exactly `k` backticks that begins at
/// or after `i`.
pub open spec fn closing_run(s: Seq<char>, i: int, k: int) -> Option<int>
    decreases s.len() - i,
{
    if i < 0 || i >= s.len() {
        None
    } else if s[i] == '`' {
        let e = run_end(s, i, CharClass::Only('`'));
        if e - i == k {
            Some(i)
        } else if i < e <= s.len() {
            closing_run(s, e, k)
        } else {
            None
        }
    } else {
        closing_run(s, i + 1, k)
    }
}

/// One line from position `p` on, rewritten outside its inline code spans.
/// A run of backticks opens a code span when a later run of the same length
/// closes it; the whole span is then copied. A run that nothing closes is
/// copied as it is, and the text after it is rewritten as usual.
pub open spec fn code_spans(s: Seq<char>, p: int) -> Seq<char>
    decreases s.len() - p,
{
    if p < 0 || p > s.len() {
        seq![]
    } else {
        let t = run_end(s, p, CharClass::Except('`'));
        if !(p <= t <= s.len()) {
            seq![]
        } else if t == s.len() {
            rewrite_prose(s.subrange(p, t))
        } else {
            let r = run_end(s, t, CharClass::Only('`'));
            if !(t < r <= s.len()) {
                seq![]
            } else {
                match closing_run(s, r, r - t) {
                    Some(c) => if r <= c && c + (r - t) <= s.len() {
                        rewrite_prose(s.subrange(p, t)) + s.subrange(t, c + (r - t)) + code_spans(
                            s,
                            c + (r - t),
                        )
                    } else {
                        seq![]
                    },
                    None => rewrite_prose(s.subrange(p, t)) + s.subrange(t, r) + code_spans(s, r),
                }
            }
        }
    }
}

fn find_closing_run(s: &Vec<char>, from: usize, k: usize) -> (r: Option<usize>)
    requires
        from <= s.len(),
    ensures
        match r {
            Some(c) => closing_run(s@, from as int, k as int) == Some(c as int) && from <= c
                && c + k <= s.len(),
            None => closing_run(s@, from as int, k as int) is None,
        },
{
    let mut i = from;
    while i < s.len()
        invariant
            from <= i <= s.len(),
            closing_run(s@, i as int, k as int) == closing_run(s@, from as int, k as int),
        decreases s.len() - i,
    {
        if s[i] == '`' {
            let e = scan_run(s, i, CharClass::Only('`'));
            if e - i == k {
                return Some(i);
            }
            i = e;
        } else {
            i = i + 1;
        }
    }
    None
}

fn rewrite_line(s: &Vec<char>) -> (r: Vec<char>)
    ensures
        r@ == code_spans(s@, 0),
{
    let mut out: Vec<char> = Vec::new();
    let mut p: usize = 0;
    while p < s.len()
        invariant
            p <= s.len(),
            out@ + code_spans(s@, p as int) == code_spans(s@, 0),
        decreases s.len() - p,
    {
        let ghost before = out@;
        let t = scan_run(s, p, CharClass::Except('`'));
        if t == s.len() {
            push_prose(&mut out, s, p, t);
            p = t;
            proof {
                assert(code_spans(s@, p as int) == rewrite_prose(s@.subrange(p as int, p as int)));
            }
            push_prose(&mut out, s, p, p);
            assert(out@ =~= code_spans(s@, 0));
            return out;
        }
        let r = scan_run(s, t, CharClass::Only('`'));
        match find_closing_run(s, r, r - t) {
            Some(c) => {
                push_prose(&mut out, s, p, t);
                push_range(&mut out, s, t, c + (r - t));
                assert(out@ + code_spans(s@, c + (r - t)) =~= before + code_spans(s@, p as int));
                p = c + (r - t);
            },
            None => {
                push_prose(&mut out, s, p, t);
                push_range(&mut out, s, t, r);
                assert(out@ + code_spans(s@, r as int) =~= before + code_spans(s@, p as int));
                p = r;
            },
        }
    }
    push_prose(&mut out, s, p, p);
    assert(out@ =~= code_spans(s@, 0));
    out
}

// ───── fenced code blocks ─────

/// The fence a line opens: after leading whitespace, a run of three or more
/// backticks or tildes. Gives the fence character and the run's length.
pub open spec fn opening_fence(line: Seq<char>) -> Option<(char, int)> {
    let t = trim_start(line);
    if t.len() == 0 {
        None
    } else {
        let ch = t[0];
        if ch != '`' && ch != '~' {
            None
        } else {
            let n = run_end(t, 0, CharClass::Only(ch));
            if n >= 3 {
                Some((ch, n))
            } else {
                None
            }
        }
    }
}

/// A line that closes a fence of `n` `ch` characters: once trimmed, it is a
/// non-empty run of `ch` at least `n` long.
pub open spec fn is_closing_fence(line: Seq<char>, ch: char, n: int) -> bool {
    let t = trim(line);
    &&& t.len() > 0
    &&& forall|j: int| 0 <= j < t.len() ==> #[trigger] t[j] == ch
    &&& t.len() >= n
}

fn find_opening_fence(line: &Vec<char>) -> (r: Option<(char, usize)>)
    ensures
        match r {
            Some((ch, n)) => opening_fence(line@) == Some((ch, n as int)),
            None => opening_fence(line@) is None,
        },
{
    let a = skip_ws(line, 0);
    proof {
        lemma_ws_lead_unique(line@, a as int);
    }
    if a == line.len() {
        return None;
    }
    let t = slice_chars(line, a, line.len());
    assert(t@ =~= trim_start(line@));
    let ch = t[0];
    if ch != '`' && ch != '~' {
        return None;
    }
    let n = scan_run(&t, 0, CharClass::Only(ch));
    if n >= 3 {
        Some((ch, n))
    } else {
        None
    }
}

fn closes_fence(line: &Vec<char>, ch: char, n: usize) -> (b: bool)
    ensures
        b == is_closing_fence(line@, ch, n as int),
{
    let (lo, hi) = trim_bounds(line);
    if lo == hi {
        return false;
    }
    let t = slice_chars(line, lo, hi);
    assert(t@ == trim(line@));
    let mut i: usize = 0;
    while i < t.len()
        invariant
            i <= t.len(),
            t@ == trim(line@),
            forall|j: int| 0 <= j < i ==> #[trigger] t@[j] == ch,
        decreases t.len() - i,
    {
        if t[i] != ch {
            return false;
        }
        i = i + 1;
    }
    t.len() >= n
}

// ───── lines and the document ─────

pub open spec fn is_eol(c: char) -> bool {
    c == '\n' || c == '\r'
}

/// `c` is where the run of line-ending characters at the end of `line` starts.
pub open spec fn is_content_end(line: Seq<char>, c: int) -> bool {
    &&& 0 <= c <= line.len()
    &&& forall|j: int| c <= j < line.len() ==> #[trigger] is_eol(line[j])
    &&& c > 0 ==> !is_eol(line[c - 1])
}

/// Length of a line without its trailing `\n` and `\r` characters.
pub open spec fn content_end(line: Seq<char>) -> int {
    choose|c: int| is_content_end(line, c)
}

fn find_content_end(line: &Vec<char>) -> (c: usize)
    ensures
        c <= line.len(),
        content_end(line@) == c,
{
    let mut c = line.len();
    while c > 0 && (line[c - 1] == '\n' || line[c - 1] == '\r')
        invariant
            c <= line.len(),
            forall|j: int| c <= j < line.len() ==> #[trigger] is_eol(line@[j]),
        decreases c,
    {
        c = c - 1;
    }
    proof {
        let k = content_end(line@);
        assert(is_content_end(line@, c as int));
        assert(is_content_end(line@, k));
        if k < c {
            assert(is_eol(line@[c - 1]));
        } else if c < k {
            assert(is_eol(line@[k - 1]));
        }
    }
    c
}

pub open spec fn fence_view(f: Option<(char, usize)>) -> Option<(char, int)> {
    match f {
        Some((ch, n)) => Some((ch, n as int)),
        None => None,
    }
}

/// The document from position `p` on, line by line (each line keeps its
/// `\n`). `fence` is the fenced code block that `p` lies in, if any. A line
/// inside a fence is copied unchanged and may close it; a line that opens a
/// fence is copied unchanged; any other line is rewritten outside its code
/// spans, and its line ending kept.
pub open spec fn doc_from(s: Seq<char>, p: int, fence: Option<(char, int)>) -> Seq<char>
    decreases s.len() - p,
{
    if p < 0 || p >= s.len() {
        seq![]
    } else {
        let le = run_end(s, p, CharClass::Except('\n'));
        if !(p <= le <= s.len()) {
            seq![]
        } else {
            let e = if le < s.len() {
                le + 1
            } else {
                s.len() as int
            };
            let line = s.subrange(p, e);
            let content = line.take(content_end(line));
            match fence {
                Some((fc, fl)) => line + doc_from(
                    s,
                    e,
                    if is_closing_fence(content, fc, fl) {
                        None
                    } else {
                        fence
                    },
                ),
                None => match opening_fence(content) {
                    Some(f) => line + doc_from(s, e, Some(f)),
                    None => code_spans(content, 0) + line.skip(content_end(line)) + doc_from(
                        s,
                        e,
                        None,
                    ),
                },
            }
        }
    }
}

pub open spec fn has_double_bracket(s: Seq<char>) -> bool {
    exists|i: int| 0 <= i && i + 1 < s.len() && #[trigger] s[i] == '[' && s[i + 1] == '['
}

/// The whole rewrite: a text without `[[` is left as it is.
pub open spec fn preprocessed(s: Seq<char>) -> Seq<char> {
    if has_double_bracket(s) {
        doc_from(s, 0, None)
    } else {
        s
    }
}

fn contains_double_bracket(s: &Vec<char>) -> (b: bool)
    ensures
        b == has_double_bracket(s@),
{
    let mut i: usize = 0;
    while s.len() >= 2 && i < s.len() - 1
        invariant
            forall|j: int| 0 <= j < i && j + 1 < s.len() ==> !(#[trigger] s@[j] == '[' && s@[j + 1] == '['),
        decreases s.len() - i,
    {
        if s[i] == '[' && s[i + 1] == '[' {
            return true;
        }
        i = i + 1;
    }
    false
}

/// Rewrite Obsidian-style `[[wikilinks]]` and `![[embeds]]` into standard
/// Markdown before the document reaches a CommonMark parser, which has no
/// notion of double-bracket syntax. Fenced code blocks and inline code
/// spans are left untouched so a literal `[[...]]` shown as a syntax
/// example doesn't get rewritten. A text without `[[` comes back borrowed.
pub fn preprocess(source: &str) -> (r: Cow<'_, str>)
    ensures
        r@ == preprocessed(source@),
        !has_double_bracket(source@) ==> r is Borrowed,
{
    let s = chars_of(source);
    if !contains_double_bracket(&s) {
        return Cow::Borrowed(source);
    }
    let mut out: Vec<char> = Vec::new();
    let mut p: usize = 0;
    let mut fence: Option<(char, usize)> = None;
    while p < s.len()
        invariant
            p <= s.len(),
            out@ + doc_from(s@, p as int, fence_view(fence)) == doc_from(s@, 0, None),
        decreases s.len() - p,
    {
        let ghost before = out@;
        let ghost fv = fence_view(fence);
        let le = scan_run(&s, p, CharClass::Except('\n'));
        let e = if le < s.len() {
            le + 1
        } else {
            s.len()
        };
        let line = slice_chars(&s, p, e);
        let c = find_content_end(&line);
        let content = slice_chars(&line, 0, c);
        assert(content@ =~= line@.take(c as int));
        match fence {
            Some((fc, fl)) => {
                push_all(&mut out, &line);
                if closes_fence(&content, fc, fl) {
                    fence = None;
                }
            },
            None => {
                match find_opening_fence(&content) {
                    Some(f) => {
                        push_all(&mut out, &line);
                        fence = Some(f);
                    },
                    None => {
                        let rewritten = rewrite_line(&content);
                        push_all(&mut out, &rewritten);
                        push_range(&mut out, &line, c, line.len());
                        assert(line@.subrange(c as int, line@.len() as int) =~= line@.skip(c as int));
                    },
                }
            },
        }
        assert(out@ + doc_from(s@, e as int, fence_view(fence)) =~= before + doc_from(
            s@,
            p as int,
            fv,
        ));
        p = e;
    }
    assert(out@ =~= doc_from(s@, 0, None));
    Cow::Owned(string_of(&out))
}

// ───── rewriting is local ─────

proof fn run_end_witness(s: Seq<char>, from: int, k: CharClass) -> (e: int)
    requires
        0 <= from <= s.len(),
    ensures
        is_run_end(s, from, k, e),
    decreases s.len() - from,
{
    if from == s.len() || !in_class(k, s[from]) {
        from
    } else {
        let e = run_end_witness(s, from + 1, k);
        assert forall|j: int| from <= j < e implies in_class(k, #[trigger] s[j]) by {
            if j > from {
                assert(in_class(k, s[j]));
            }
        }
        e
    }
}

proof fn lemma_run_end_is(s: Seq<char>, from: int, k: CharClass)
    requires
        0 <= from <= s.len(),
    ensures
        is_run_end(s, from, k, run_end(s, from, k)),
        from <= run_end(s, from, k) <= s.len(),
{
    let e = run_end_witness(s, from, k);
    lemma_run_end_unique(s, from, k, e);
}

/// A run in `y` read inside `p + y` ends at the same place, shifted.
proof fn lemma_run_end_shift(p: Seq<char>, y: Seq<char>, j: int, k: CharClass)
    requires
        0 <= j <= y.len(),
    ensures
        run_end(p + y, p.len() + j, k) == p.len() + run_end(y, j, k),
{
    lemma_run_end_is(y, j, k);
    let e = run_end(y, j, k);
    let s = p + y;
    let d = p.len() as int;
    assert forall|q: int| d + j <= q < d + e implies in_class(k, #[trigger] s[q]) by {
        assert(s[q] == y[q - d]);
        assert(in_class(k, y[q - d]));
    }
    if d + e < s.len() {
        assert(s[d + e] == y[e]);
    }
    assert(is_run_end(s, d + j, k, d + e));
    lemma_run_end_unique(s, d + j, k, d + e);
}

/// A run that ends inside `x` ends at the same place in `x + y`.
proof fn lemma_run_end_prefix(x: Seq<char>, y: Seq<char>, j: int, k: CharClass)
    requires
        0 <= j <= x.len(),
        run_end(x, j, k) < x.len(),
    ensures
        run_end(x + y, j, k) == run_end(x, j, k),
{
    lemma_run_end_is(x, j, k);
    let e = run_end(x, j, k);
    let s = x + y;
    assert forall|q: int| j <= q < e implies in_class(k, #[trigger] s[q]) by {
        assert(s[q] == x[q]);
        assert(in_class(k, x[q]));
    }
    assert(s[e] == x[e]);
    assert(is_run_end(s, j, k, e));
    lemma_run_end_unique(s, j, k, e);
}

pub open spec fn shift_range(r: Option<(int, int)>, d: int) -> Option<(int, int)> {
    match r {
        Some((a, b)) => Some((a + d, b + d)),
        None => None,
    }
}

/// A wikilink match moved `d` places on.
pub open spec fn shift_link(
    m: Option<(int, int, Option<(int, int)>, Option<(int, int)>, int)>,
    d: int,
) -> Option<(int, int, Option<(int, int)>, Option<(int, int)>, int)> {
    match m {
        Some((a, b, h, l, e)) => Some((a + d, b + d, shift_range(h, d), shift_range(l, d), e + d)),
        None => None,
    }
}

proof fn lemma_link_tail_shift(p: Seq<char>, y: Seq<char>, a: int, b: int, h: Option<(int, int)>, q: int)
    requires
        0 <= q <= y.len(),
    ensures
        link_tail(p + y, a + p.len(), b + p.len(), shift_range(h, p.len() as int), q + p.len()) == shift_link(
            link_tail(y, a, b, h, q),
            p.len() as int,
        ),
{
    let s = p + y;
    let d = p.len() as int;
    if q < y.len() {
        assert(s[q + d] == y[q]);
    }
    if q + 1 < y.len() {
        assert(s[q + d + 1] == y[q + 1]);
    }
    if 0 <= q < y.len() && y[q] == '|' {
        lemma_run_end_shift(p, y, q + 1, CharClass::NotClose);
        lemma_run_end_is(y, q + 1, CharClass::NotClose);
        let dd = run_end(y, q + 1, CharClass::NotClose);
        if dd < y.len() {
            assert(s[dd + d] == y[dd]);
        }
        if dd + 1 < y.len() {
            assert(s[dd + d + 1] == y[dd + 1]);
        }
    }
}

proof fn lemma_link_match_shift(p: Seq<char>, y: Seq<char>, j: int)
    requires
        0 <= j <= y.len(),
    ensures
        link_match(p + y, p.len() + j) == shift_link(link_match(y, j), p.len() as int),
{
    let s = p + y;
    let d = p.len() as int;
    if j < y.len() {
        assert(s[d + j] == y[j]);
    }
    if j + 1 < y.len() {
        assert(s[d + j + 1] == y[j + 1]);
    }
    if 0 <= j && j + 2 <= y.len() && y[j] == '[' && y[j + 1] == '[' {
        lemma_run_end_shift(p, y, j + 2, CharClass::NotClosePipeOrHash);
        lemma_run_end_is(y, j + 2, CharClass::NotClosePipeOrHash);
        let b = run_end(y, j + 2, CharClass::NotClosePipeOrHash);
        if b < y.len() {
            assert(s[b + d] == y[b]);
        }
        if j + 2 < b && b < y.len() && y[b] == '#' {
            lemma_run_end_shift(p, y, b + 1, CharClass::NotCloseOrPipe);
            lemma_run_end_is(y, b + 1, CharClass::NotCloseOrPipe);
            let dd = run_end(y, b + 1, CharClass::NotCloseOrPipe);
            lemma_link_tail_shift(p, y, j + 2, b, Some((b + 1, dd)), dd);
            assert(shift_range(Some((b + 1, dd)), d) == Some((b + 1 + d, dd + d)));
        } else {
            lemma_link_tail_shift(p, y, j + 2, b, None, b);
        }
    }
}

/// The bounds of a wikilink match lie within the text.
proof fn lemma_link_match_bounds(y: Seq<char>, j: int)
    requires
        0 <= j,
        link_match(y, j) is Some,
    ensures
        ({
            let (a, b, h, l, e) = link_match(y, j)->0;
            &&& j + 2 == a < b <= y.len()
            &&& e <= y.len()
            &&& j < e
            &&& (h matches Some((c, dd)) ==> b < c <= dd <= y.len())
            &&& (l matches Some((c, dd)) ==> b < c <= dd <= y.len())
        }),
{
    lemma_run_end_is(y, j + 2, CharClass::NotClosePipeOrHash);
    let b = run_end(y, j + 2, CharClass::NotClosePipeOrHash);
    if b < y.len() && y[b] == '#' {
        lemma_run_end_is(y, b + 1, CharClass::NotCloseOrPipe);
        let dd = run_end(y, b + 1, CharClass::NotCloseOrPipe);
        if 0 <= dd < y.len() && y[dd] == '|' {
            lemma_run_end_is(y, dd + 1, CharClass::NotClose);
        }
    } else if 0 <= b < y.len() && y[b] == '|' {
        lemma_run_end_is(y, b + 1, CharClass::NotClose);
    }
}

proof fn lemma_link_text_shift(
    p: Seq<char>,
    y: Seq<char>,
    a: int,
    b: int,
    h: Option<(int, int)>,
    l: Option<(int, int)>,
)
    requires
        0 <= a <= b <= y.len(),
        h matches Some((c, dd)) ==> 0 <= c <= dd <= y.len(),
        l matches Some((c, dd)) ==> 0 <= c <= dd <= y.len(),
    ensures
        link_text(p + y, a + p.len(), b + p.len(), shift_range(h, p.len() as int), shift_range(l, p.len() as int))
            == link_text(y, a, b, h, l),
{
    let s = p + y;
    let d = p.len() as int;
    assert(s.subrange(a + d, b + d) =~= y.subrange(a, b));
    if let Some((c, dd)) = h {
        assert(s.subrange(c + d, dd + d) =~= y.subrange(c, dd));
    }
    if let Some((c, dd)) = l {
        assert(s.subrange(c + d, dd + d) =~= y.subrange(c, dd));
    }
}

/// Rewriting the part of `p + y` after `p` is rewriting `y`.
proof fn lemma_link_pass_shift(p: Seq<char>, y: Seq<char>, j: int)
    requires
        0 <= j <= y.len(),
    ensures
        link_pass(p + y, p.len() + j) == link_pass(y, j),
    decreases y.len() - j,
{
    let s = p + y;
    let d = p.len() as int;
    if j < y.len() {
        lemma_link_match_shift(p, y, j);
        match link_match(y, j) {
            Some((a, b, h, l, e)) => {
                lemma_link_match_bounds(y, j);
                lemma_link_text_shift(p, y, a, b, h, l);
                lemma_link_pass_shift(p, y, e);
            },
            None => {
                assert(s[d + j] == y[j]);
                lemma_link_pass_shift(p, y, j + 1);
            },
        }
    }
}

/// A text holding exactly one whole wikilink, from start to end.
pub open spec fn whole_link(x: Seq<char>) -> bool {
    link_match(x, 0) matches Some((a, b, h, l, e)) && e == x.len()
}

proof fn lemma_link_match_prefix(x: Seq<char>, y: Seq<char>)
    requires
        whole_link(x),
    ensures
        link_match(x + y, 0) == link_match(x, 0),
{
    let s = x + y;
    lemma_link_match_bounds(x, 0);
    assert(s[0] == x[0] && s[1] == x[1]);
    lemma_run_end_is(x, 2, CharClass::NotClosePipeOrHash);
    let b = run_end(x, 2, CharClass::NotClosePipeOrHash);
    lemma_run_end_prefix(x, y, 2, CharClass::NotClosePipeOrHash);
    assert(s[b] == x[b]);
    if x[b] == '#' {
        lemma_run_end_is(x, b + 1, CharClass::NotCloseOrPipe);
        let dd = run_end(x, b + 1, CharClass::NotCloseOrPipe);
        lemma_run_end_prefix(x, y, b + 1, CharClass::NotCloseOrPipe);
        assert(s[dd] == x[dd]);
        if x[dd] == '|' {
            lemma_run_end_is(x, dd + 1, CharClass::NotClose);
            let ee = run_end(x, dd + 1, CharClass::NotClose);
            lemma_run_end_prefix(x, y, dd + 1, CharClass::NotClose);
            assert(s[ee] == x[ee] && s[ee + 1] == x[ee + 1]);
        } else {
            assert(s[dd + 1] == x[dd + 1]);
        }
    } else if x[b] == '|' {
        lemma_run_end_is(x, b + 1, CharClass::NotClose);
        let ee = run_end(x, b + 1, CharClass::NotClose);
        lemma_run_end_prefix(x, y, b + 1, CharClass::NotClose);
        assert(s[ee] == x[ee] && s[ee + 1] == x[ee + 1]);
    } else {
        assert(s[b + 1] == x[b + 1]);
    }
}

proof fn lemma_plain_prefix(x: Seq<char>, y: Seq<char>, i: int)
    requires
        0 <= i <= x.len(),
        forall|k: int| 0 <= k < x.len() ==> x[k] != '[',
    ensures
        link_pass(x + y, i) == x.subrange(i, x.len() as int) + link_pass(y, 0),
    decreases x.len() - i,
{
    let s = x + y;
    if i < x.len() {
        assert(s[i] == x[i]);
        lemma_plain_prefix(x, y, i + 1);
        assert(x.subrange(i, x.len() as int) =~= seq![x[i]] + x.subrange(i + 1, x.len() as int));
    } else {
        lemma_link_pass_shift(x, y, 0);
        assert(x.subrange(i, x.len() as int) =~= Seq::<char>::empty());
    }
}

/// Wikilinks are rewritten one after another, each on its own: rewriting
/// a text made of a whole wikilink, or of text without any `[`, followed by
/// more text, is rewriting each part and joining the results. So a line of
/// several wikilinks has every one of them rewritten.
pub proof fn lemma_links_compose(x: Seq<char>, y: Seq<char>)
    requires
        whole_link(x) || forall|k: int| 0 <= k < x.len() ==> x[k] != '[',
    ensures
        link_pass(x + y, 0) == link_pass(x, 0) + link_pass(y, 0),
{
    if whole_link(x) {
        lemma_link_match_prefix(x, y);
        lemma_link_match_bounds(x, 0);
        let (a, b, h, l, e) = link_match(x, 0)->0;
        lemma_link_text_shift(Seq::<char>::empty(), x, a, b, h, l);
        let s = x + y;
        assert(s.subrange(a, b) =~= x.subrange(a, b));
        if let Some((c, dd)) = h {
            assert(s.subrange(c, dd) =~= x.subrange(c, dd));
        }
        if let Some((c, dd)) = l {
            assert(s.subrange(c, dd) =~= x.subrange(c, dd));
        }
        assert(link_text(s, a, b, h, l) == link_text(x, a, b, h, l));
        lemma_link_pass_shift(x, y, 0);
        assert(link_pass(x, e) =~= Seq::<char>::empty());
    } else {
        lemma_plain_prefix(x, y, 0);
        lemma_plain_prefix(x, Seq::<char>::empty(), 0);
        assert(x + Seq::<char>::empty() =~= x);
        assert(x.subrange(0, x.len() as int) =~= x);
    }
}

/// An embed match moved `d` places on.
pub open spec fn shift_embed(m: Option<(int, int, Option<(int, int)>, int)>, d: int) -> Option<
    (int, int, Option<(int, int)>, int),
> {
    match m {
        Some((a, b, l, e)) => Some((a + d, b + d, shift_range(l, d), e + d)),
        None => None,
    }
}

proof fn lemma_embed_match_shift(p: Seq<char>, y: Seq<char>, j: int)
    requires
        0 <= j <= y.len(),
    ensures
        embed_match(p + y, p.len() + j) == shift_embed(embed_match(y, j), p.len() as int),
{
    let s = p + y;
    let d = p.len() as int;
    if j < y.len() {
        assert(s[d + j] == y[j]);
    }
    if j + 1 < y.len() {
        assert(s[d + j + 1] == y[j + 1]);
    }
    if j + 2 < y.len() {
        assert(s[d + j + 2] == y[j + 2]);
    }
    if 0 <= j && j + 3 <= y.len() && y[j] == '!' && y[j + 1] == '[' && y[j + 2] == '[' {
        lemma_run_end_shift(p, y, j + 3, CharClass::NotCloseOrPipe);
        lemma_run_end_is(y, j + 3, CharClass::NotCloseOrPipe);
        let b = run_end(y, j + 3, CharClass::NotCloseOrPipe);
        if b < y.len() {
            assert(s[b + d] == y[b]);
        }
        if b + 1 < y.len() {
            assert(s[b + d + 1] == y[b + 1]);
        }
        if b < y.len() && y[b] == '|' {
            lemma_run_end_shift(p, y, b + 1, CharClass::NotClose);
            lemma_run_end_is(y, b + 1, CharClass::NotClose);
            let dd = run_end(y, b + 1, CharClass::NotClose);
            if dd < y.len() {
                assert(s[dd + d] == y[dd]);
            }
            if dd + 1 < y.len() {
                assert(s[dd + d + 1] == y[dd + 1]);
            }
        }
    }
}

proof fn lemma_embed_match_bounds(y: Seq<char>, j: int)
    requires
        0 <= j,
        embed_match(y, j) is Some,
    ensures
        ({
            let (a, b, l, e) = embed_match(y, j)->0;
            &&& j + 3 == a < b <= y.len()
            &&& j < e <= y.len()
            &&& (l matches Some((c, dd)) ==> b < c <= dd <= y.len())
        }),
{
    lemma_run_end_is(y, j + 3, CharClass::NotCloseOrPipe);
    let b = run_end(y, j + 3, CharClass::NotCloseOrPipe);
    if b < y.len() && y[b] == '|' {
        lemma_run_end_is(y, b + 1, CharClass::NotClose);
    }
}

proof fn lemma_embed_text_shift(p: Seq<char>, y: Seq<char>, a: int, b: int, l: Option<(int, int)>)
    requires
        0 <= a <= b <= y.len(),
        l matches Some((c, dd)) ==> 0 <= c <= dd <= y.len(),
    ensures
        embed_text(p + y, a + p.len(), b + p.len(), shift_range(l, p.len() as int)) == embed_text(y, a, b, l),
{
    let s = p + y;
    let d = p.len() as int;
    assert(s.subrange(a + d, b + d) =~= y.subrange(a, b));
    if let Some((c, dd)) = l {
        assert(s.subrange(c + d, dd + d) =~= y.subrange(c, dd));
    }
}

/// Rewriting the embeds of the part of `p + y` after `p` is rewriting `y`.
proof fn lemma_embed_pass_shift(p: Seq<char>, y: Seq<char>, j: int)
    requires
        0 <= j <= y.len(),
    ensures
        embed_pass(p + y, p.len() + j) == embed_pass(y, j),
    decreases y.len() - j,
{
    let s = p + y;
    let d = p.len() as int;
    if j < y.len() {
        lemma_embed_match_shift(p, y, j);
        match embed_match(y, j) {
            Some((a, b, l, e)) => {
                lemma_embed_match_bounds(y, j);
                lemma_embed_text_shift(p, y, a, b, l);
                lemma_embed_pass_shift(p, y, e);
            },
            None => {
                assert(s[d + j] == y[j]);
                lemma_embed_pass_shift(p, y, j + 1);
            },
        }
    }
}

/// A text holding exactly one whole embed, from start to end.
pub open spec fn whole_embed(x: Seq<char>) -> bool {
    embed_match(x, 0) matches Some((a, b, l, e)) && e == x.len()
}

proof fn lemma_embed_match_prefix(x: Seq<char>, y: Seq<char>)
    requires
        whole_embed(x),
    ensures
        embed_match(x + y, 0) == embed_match(x, 0),
{
    let s = x + y;
    lemma_embed_match_bounds(x, 0);
    assert(s[0] == x[0] && s[1] == x[1] && s[2] == x[2]);
    lemma_run_end_is(x, 3, CharClass::NotCloseOrPipe);
    let b = run_end(x, 3, CharClass::NotCloseOrPipe);
    lemma_run_end_prefix(x, y, 3, CharClass::NotCloseOrPipe);
    assert(s[b] == x[b]);
    if x[b] == '|' {
        lemma_run_end_is(x, b + 1, CharClass::NotClose);
        let ee = run_end(x, b + 1, CharClass::NotClose);
        lemma_run_end_prefix(x, y, b + 1, CharClass::NotClose);
        assert(s[ee] == x[ee] && s[ee + 1] == x[ee + 1]);
    } else {
        assert(s[b + 1] == x[b + 1]);
    }
}

proof fn lemma_plain_prefix_embeds(x: Seq<char>, y: Seq<char>, i: int)
    requires
        0 <= i <= x.len(),
        forall|k: int| 0 <= k < x.len() ==> x[k] != '!',
    ensures
        embed_pass(x + y, i) == x.subrange(i, x.len() as int) + embed_pass(y, 0),
    decreases x.len() - i,
{
    let s = x + y;
    if i < x.len() {
        assert(s[i] == x[i]);
        lemma_plain_prefix_embeds(x, y, i + 1);
        assert(x.subrange(i, x.len() as int) =~= seq![x[i]] + x.subrange(i + 1, x.len() as int));
    } else {
        lemma_embed_pass_shift(x, y, 0);
        assert(x.subrange(i, x.len() as int) =~= Seq::<char>::empty());
    }
}

/// Embeds are rewritten one after another, each on its own: rewriting a
/// text made of a whole embed, or of text without any `!`, followed by more
/// text, is rewriting each part and joining the results.
pub proof fn lemma_embeds_compose(x: Seq<char>, y: Seq<char>)
    requires
        whole_embed(x) || forall|k: int| 0 <= k < x.len() ==> x[k] != '!',
    ensures
        embed_pass(x + y, 0) == embed_pass(x, 0) + embed_pass(y, 0),
{
    if whole_embed(x) {
        lemma_embed_match_prefix(x, y);
        lemma_embed_match_bounds(x, 0);
        let (a, b, l, e) = embed_match(x, 0)->0;
        let s = x + y;
        assert(s.subrange(a, b) =~= x.subrange(a, b));
        if let Some((c, dd)) = l {
            assert(s.subrange(c, dd) =~= x.subrange(c, dd));
        }
        assert(embed_text(s, a, b, l) == embed_text(x, a, b, l));
        lemma_embed_pass_shift(x, y, 0);
        assert(embed_pass(x, e) =~= Seq::<char>::empty());
    } else {
        lemma_plain_prefix_embeds(x, y, 0);
        lemma_plain_prefix_embeds(x, Seq::<char>::empty(), 0);
        assert(x + Seq::<char>::empty() =~= x);
        assert(x.subrange(0, x.len() as int) =~= x);
    }
}

/// A character an anchor may hold: a lower-case ASCII letter, a digit, `-`,
/// `_`, or a character outside ASCII that is not whitespace.
pub open spec fn anchor_char(c: char) -> bool {
    ||| ('a' <= c && c <= 'z')
    ||| ('0' <= c && c <= '9')
    ||| c == '-'
    ||| c == '_'
    ||| ((c as u32) >= 128 && !is_ws(c))
}

/// Slugs are made character by character: the slug of two texts joined is
/// the two slugs joined, it is never longer than the text, and it holds only
/// anchor characters (no upper case, no whitespace, no ASCII punctuation
/// but `-` and `_`).
pub proof fn lemma_slug_shape(x: Seq<char>, y: Seq<char>)
    ensures
        slug(x + y) == slug(x) + slug(y),
        slug(x).len() <= x.len(),
        forall|j: int| 0 <= j < slug(x).len() ==> anchor_char(#[trigger] slug(x)[j]),
    decreases y.len(),
{
    if y.len() > 0 {
        lemma_slug_shape(x, y.drop_last());
        assert((x + y).drop_last() =~= x + y.drop_last());
        assert((x + y).last() == y.last());
    } else {
        assert(x + y =~= x);
        lemma_slug_chars(x);
    }
}

proof fn lemma_slug_chars(x: Seq<char>)
    ensures
        slug(x).len() <= x.len(),
        forall|j: int| 0 <= j < slug(x).len() ==> anchor_char(#[trigger] slug(x)[j]),
    decreases x.len(),
{
    if x.len() > 0 {
        lemma_slug_chars(x.drop_last());
        let p = slug(x.drop_last());
        let c = x.last();
        let q = slug_char(c);
        assert forall|j: int| 0 <= j < q.len() implies anchor_char(#[trigger] q[j]) by {
            if is_ascii_alnum(c) {
                assert(q[j] == ascii_lower(c));
                if 'A' <= c && c <= 'Z' {
                    assert(is_ascii_upper(c));
                }
            }
        }
        assert forall|j: int| 0 <= j < slug(x).len() implies anchor_char(#[trigger] slug(x)[j]) by {
            if j < p.len() {
                assert(slug(x)[j] == p[j]);
            } else {
                assert(slug(x)[j] == q[j - p.len()]);
            }
        }
    }
}

proof fn lemma_closing_run_skips(s: Seq<char>, i: int, q: int)
    requires
        0 <= i <= q,
        q + 1 == s.len(),
        s[q] == '`',
        forall|j: int| i <= j < q ==> s[j] != '`',
    ensures
        closing_run(s, i, 1) == Some(q),
    decreases q - i,
{
    if i < q {
        lemma_closing_run_skips(s, i + 1, q);
    } else {
        assert(is_run_end(s, q, CharClass::Only('`'), q + 1));
        lemma_run_end_unique(s, q, CharClass::Only('`'), q + 1);
    }
}

/// Inline code is left as it is: in a line made of prose `x` and then a
/// non-empty code span `` `c` `` (neither holding a backtick), the prose is rewritten
/// and the code span copied unchanged.
pub proof fn lemma_code_span_untouched(x: Seq<char>, c: Seq<char>)
    requires
        forall|j: int| 0 <= j < x.len() ==> x[j] != '`',
        c.len() > 0,
        forall|j: int| 0 <= j < c.len() ==> c[j] != '`',
    ensures
        code_spans(x + seq!['`'] + c + seq!['`'], 0) == rewrite_prose(x) + seq!['`'] + c + seq!['`'],
{
    let s = x + seq!['`'] + c + seq!['`'];
    let t = x.len() as int;
    let q = t + 1 + c.len();
    assert(s[t] == '`');
    assert forall|j: int| 0 <= j < t implies in_class(CharClass::Except('`'), #[trigger] s[j]) by {
        assert(s[j] == x[j]);
    }
    assert(is_run_end(s, 0, CharClass::Except('`'), t));
    lemma_run_end_unique(s, 0, CharClass::Except('`'), t);
    assert(s[q] == '`');
    if c.len() > 0 {
        assert(s[t + 1] == c[0]);
    }
    assert(is_run_end(s, t, CharClass::Only('`'), t + 1));
    lemma_run_end_unique(s, t, CharClass::Only('`'), t + 1);
    assert forall|j: int| t + 1 <= j < q implies s[j] != '`' by {
        assert(s[j] == c[j - t - 1]);
    }
    lemma_closing_run_skips(s, t + 1, q);
    assert(s.subrange(0, t) =~= x);
    assert(s.subrange(t, q + 1) =~= seq!['`'] + c + seq!['`']);
    // nothing is left after the span
    let rest = code_spans(s, q + 1);
    assert(is_run_end(s, q + 1, CharClass::Except('`'), q + 1));
    lemma_run_end_unique(s, q + 1, CharClass::Except('`'), q + 1);
    assert(s.subrange(q + 1, q + 1) =~= Seq::<char>::empty());
    assert(embed_pass(Seq::<char>::empty(), 0) =~= Seq::<char>::empty());
    assert(link_pass(Seq::<char>::empty(), 0) =~= Seq::<char>::empty());
    assert(rest =~= Seq::<char>::empty());
    assert(code_spans(s, 0) == rewrite_prose(x) + (seq!['`'] + c + seq!['`']) + rest);
    assert(rewrite_prose(x) + (seq!['`'] + c + seq!['`']) + rest =~= rewrite_prose(x) + seq!['`'] + c + seq!['`']);
}

} // verus!
