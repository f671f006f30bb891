//! The pager's logic: search over the rendered lines, scrolling, and the
//! frame that the terminal shows.
use vstd::prelude::*;
use crate::style::{spans_text, Color, Line, Style, StyledSpan};
use crate::text::{chars_of, find_first, first_occ, is_first_occ, lowercase, occurs_at, push_all, string_of, to_lowercase};
use crate::theme::Theme;
use crate::pattern::{char_at_byte, char_index, regex_find_all, regex_found, regex_valid};

verus! {

/// One occurrence of the query: line index and character range.
#[derive(Clone, Copy, PartialEq, Eq, Structural, Debug)]
pub struct SearchMatch {
    pub line: usize,
    pub start: usize,
    pub end: usize,
}

/// The non-overlapping occurrences of `pat` in `text` from `from` on, found
/// left to right, as `(start, end)` pairs.
pub open spec fn occurrences(text: Seq<char>, pat: Seq<char>, from: int) -> Seq<(int, int)>
    decreases text.len() - from,
{
    if pat.len() == 0 || from >= text.len() || from < 0 {
        Seq::empty()
    } else {
        match first_occ(text, pat, from) {
            Some(i) => if i >= from && i + pat.len() <= text.len() {
                seq![(i, i + pat.len())] + occurrences(text, pat, i + pat.len())
            } else {
                Seq::empty()
            },
            None => Seq::empty(),
        }
    }
}

/// The matches of query `q` (already lower-cased) in line `k`.
pub open spec fn line_matches(lines: Seq<Line>, q: Seq<char>, k: int) -> Seq<SearchMatch> {
    occurrences(lowercase(spans_text(lines[k].spans@)), q, 0).map_values(
        |p: (int, int)| SearchMatch { line: k as usize, start: p.0 as usize, end: p.1 as usize },
    )
}

/// The matches of query `q` in the first `k` lines, line by line.
pub open spec fn matches_upto(lines: Seq<Line>, q: Seq<char>, k: int) -> Seq<SearchMatch>
    decreases k,
{
    if k <= 0 {
        Seq::empty()
    } else {
        matches_upto(lines, q, k - 1) + line_matches(lines, q, k - 1)
    }
}

/// The regular expression that a search for `query` runs: `query` itself,
/// case-insensitive.
pub open spec fn search_pattern(query: Seq<char>) -> Seq<char> {
    seq!['(', '?', 'i', ')'] + query
}

/// The regex matches of `pat` in line `k`, as char ranges.
pub open spec fn regex_line_matches(lines: Seq<Line>, pat: Seq<char>, k: int) -> Seq<SearchMatch> {
    let t = spans_text(lines[k].spans@);
    regex_found(pat, t).map_values(|p: (usize, usize)| char_match(k, t, p))
}

/// The match in line `k`, of text `t`, that spans byte offsets `p`.
pub open spec fn char_match(k: int, t: Seq<char>, p: (usize, usize)) -> SearchMatch {
    SearchMatch { line: k as usize, start: char_at_byte(t, p.0 as int) as usize, end: char_at_byte(t, p.1 as int) as usize }
}

/// The regex matches of `pat` in the first `k` lines, line by line.
pub open spec fn regex_matches_upto(lines: Seq<Line>, pat: Seq<char>, k: int) -> Seq<SearchMatch>
    decreases k,
{
    if k <= 0 {
        Seq::empty()
    } else {
        regex_matches_upto(lines, pat, k - 1) + regex_line_matches(lines, pat, k - 1)
    }
}

/// The matches a search for `query` finds in `lines`, line by line and left
/// to right: those of `query` as a case-insensitive regular expression, or,
/// where regex refuses it as one, its case-insensitive, non-overlapping
/// occurrences as plain text.
pub open spec fn all_matches(lines: Seq<Line>, query: Seq<char>) -> Seq<SearchMatch> {
    if query.len() == 0 {
        Seq::empty()
    } else if regex_valid(search_pattern(query)) {
        regex_matches_upto(lines, search_pattern(query), lines.len() as int)
    } else {
        matches_upto(lines, lowercase(query), lines.len() as int)
    }
}

pub struct SearchState {
    /// The query of the last search.
    pub query: String,
    /// What is being typed at the search prompt.
    pub input_buf: String,
    pub matches: Vec<SearchMatch>,
    /// Index of the current match.
    pub current_idx: usize,
    /// Whether the search prompt is open.
    pub input_active: bool,
}

fn text_of_line(line: &Line) -> (t: Vec<char>)
    ensures
        t@ == spans_text(line.spans@),
{
    let mut t: Vec<char> = Vec::new();
    let mut i: usize = 0;
    while i < line.spans.len()
        invariant
            i <= line.spans@.len(),
            t@ == spans_text(line.spans@.subrange(0, i as int)),
        decreases line.spans@.len() - i,
    {
        let ghost before = t@;
        let chars = chars_of(line.spans[i].text.as_str());
        push_all(&mut t, &chars);
        proof {
            let sub = line.spans@.subrange(0, i + 1);
            assert(sub.drop_last() =~= line.spans@.subrange(0, i as int));
            assert(sub.last() == line.spans@[i as int]);
        }
        i = i + 1;
    }
    proof {
        assert(line.spans@.subrange(0, line.spans@.len() as int) =~= line.spans@);
    }
    t
}

/// The literal matches: each line's case-insensitive, non-overlapping
/// occurrences of `query`.
fn literal_matches(lines: &Vec<Line>, query: &str) -> (ms: Vec<SearchMatch>)
    requires
        query@.len() > 0,
    ensures
        ms@ == matches_upto(lines@, lowercase(query@), lines@.len() as int),
{
    let mut ms: Vec<SearchMatch> = Vec::new();
    let q = chars_of(to_lowercase(query).as_str());
    let ghost qv = q@;
    if q.len() == 0 {
        proof {
            lemma_matches_empty_pat(lines@, qv, lines@.len() as int);
        }
        return ms;
    }
    let mut k: usize = 0;
    while k < lines.len()
        invariant
            k <= lines@.len(),
            q@ == qv,
            q@.len() > 0,
            qv == lowercase(query@),
            ms@ == matches_upto(lines@, qv, k as int),
        decreases lines@.len() - k,
    {
        let text = chars_of(to_lowercase(string_of(&text_of_line(&lines[k])).as_str()).as_str());
        let ghost before = ms@;
        let ghost found: Seq<(int, int)> = Seq::empty();
        let mut pos: usize = 0;
        while pos < text.len()
            invariant
                q@ == qv,
                q@.len() > 0,
                pos <= text@.len(),
                ms@ == before + found.map_values(
                    |p: (int, int)| SearchMatch { line: k as usize, start: p.0 as usize, end: p.1 as usize },
                ),
                found + occurrences(text@, qv, pos as int) == occurrences(text@, qv, 0),
            ensures
                ms@ == before + found.map_values(
                    |p: (int, int)| SearchMatch { line: k as usize, start: p.0 as usize, end: p.1 as usize },
                ),
                found == occurrences(text@, qv, 0),
            decreases text@.len() - pos,
        {
            match find_first(&text, &q, pos) {
                Some(start) => {
                    let end = start + q.len();
                    ms.push(SearchMatch { line: k, start, end });
                    proof {
                        let m = |p: (int, int)| SearchMatch { line: k as usize, start: p.0 as usize, end: p.1 as usize };
                        assert(occurrences(text@, qv, pos as int) == seq![(start as int, end as int)] + occurrences(text@, qv, end as int));
                        let found2 = found.push((start as int, end as int));
                        assert(found2 + occurrences(text@, qv, end as int) =~= found + occurrences(text@, qv, pos as int));
                        assert(found2.map_values(m) =~= found.map_values(m).push(m((start as int, end as int))));
                        found = found2;
                    }
                    pos = end;
                },
                None => {
                    proof {
                        assert(occurrences(text@, qv, pos as int) =~= Seq::<(int, int)>::empty());
                        assert(found + Seq::<(int, int)>::empty() =~= found);
                    }
                    break;
                },
            }
        }
        proof {
            assert(text@ == lowercase(spans_text(lines@[k as int].spans@)));
            assert(ms@ =~= matches_upto(lines@, qv, k + 1));
        }
        k = k + 1;
    }
    ms
}

/// The regex matches, given what regex found in each line's text, as char
/// ranges.
fn regex_matches(
    lines: &Vec<Line>,
    texts: &Vec<String>,
    found: &Vec<Vec<(usize, usize)>>,
    pat: Ghost<Seq<char>>,
) -> (ms: Vec<SearchMatch>)
    requires
        texts@.len() == lines@.len(),
        found@.len() == lines@.len(),
        forall|i: int| 0 <= i < lines@.len() ==> (#[trigger] texts@[i])@ == spans_text(lines@[i].spans@),
        forall|i: int| 0 <= i < lines@.len() ==> (#[trigger] found@[i])@ == regex_found(pat@, texts@[i]@),
    ensures
        ms@ == regex_matches_upto(lines@, pat@, lines@.len() as int),
{
    let mut ms: Vec<SearchMatch> = Vec::new();
    let mut k: usize = 0;
    while k < lines.len()
        invariant
            k <= lines@.len(),
            texts@.len() == lines@.len(),
            found@.len() == lines@.len(),
            forall|i: int| 0 <= i < lines@.len() ==> (#[trigger] texts@[i])@ == spans_text(lines@[i].spans@),
            forall|i: int| 0 <= i < lines@.len() ==> (#[trigger] found@[i])@ == regex_found(pat@, texts@[i]@),
            ms@ == regex_matches_upto(lines@, pat@, k as int),
        decreases lines@.len() - k,
    {
        let text = chars_of(texts[k].as_str());
        let row = &found[k];
        let ghost t = spans_text(lines@[k as int].spans@);
        let ghost before = ms@;
        let mut j: usize = 0;
        while j < row.len()
            invariant
                j <= row@.len(),
                text@ == t,
                row@ == regex_found(pat@, t),
                ms@ == before + row@.subrange(0, j as int).map_values(|p: (usize, usize)| char_match(k as int, t, p)),
            decreases row@.len() - j,
        {
            let (b0, b1) = row[j];
            let start = char_index(&text, b0);
            let end = char_index(&text, b1);
            ms.push(SearchMatch { line: k, start, end });
            proof {
                assert(row@[j as int] == (b0, b1));
                assert(char_match(k as int, t, row@[j as int]) == SearchMatch { line: k, start, end });
                assert(row@.subrange(0, j + 1) =~= row@.subrange(0, j as int).push(row@[j as int]));
                assert(row@.subrange(0, j + 1).map_values(|p: (usize, usize)| char_match(k as int, t, p)) =~= row@.subrange(0, j as int).map_values(|p: (usize, usize)| char_match(k as int, t, p)).push(char_match(k as int, t, row@[j as int])));
                assert(ms@ =~= before + row@.subrange(0, j + 1).map_values(|p: (usize, usize)| char_match(k as int, t, p)));
            }
            j = j + 1;
        }
        proof {
            assert(row@.subrange(0, row@.len() as int) =~= row@);
            assert(ms@ =~= regex_matches_upto(lines@, pat@, k + 1));
        }
        k = k + 1;
    }
    ms
}

impl SearchState {
    pub fn new() -> (s: SearchState)
        ensures
            s.query@.len() == 0,
            s.input_buf@.len() == 0,
            s.matches@.len() == 0,
            s.current_idx == 0,
            !s.input_active,
    {
        SearchState {
            query: String::new(),
            input_buf: String::new(),
            matches: Vec::new(),
            current_idx: 0,
            input_active: false,
        }
    }

    /// Runs the query typed at the prompt.
    pub fn execute(&mut self, lines: &Vec<Line>)
        ensures
            final(self).query@ == old(self).input_buf@,
            final(self).input_buf == old(self).input_buf,
            final(self).input_active == old(self).input_active,
            final(self).matches@ == all_matches(lines@, old(self).input_buf@),
            final(self).current_idx == 0,
    {
        self.query = string_of(&chars_of(self.input_buf.as_str()));
        self.find_matches(lines);
    }

    /// Finds every match of the query, a case-insensitive regular expression
    /// (plain text where it is no valid one), in `lines`; the current match
    /// becomes the first.
    pub fn find_matches(&mut self, lines: &Vec<Line>)
        ensures
            final(self).query == old(self).query,
            final(self).input_buf == old(self).input_buf,
            final(self).input_active == old(self).input_active,
            final(self).matches@ == all_matches(lines@, old(self).query@),
            final(self).current_idx == 0,
    {
        self.matches = Vec::new();
        self.current_idx = 0;
        let qchars = chars_of(self.query.as_str());
        if qchars.len() == 0 {
            return;
        }
        let mut pat: Vec<char> = Vec::new();
        pat.push('(');
        pat.push('?');
        pat.push('i');
        pat.push(')');
        push_all(&mut pat, &qchars);
        let pattern = string_of(&pat);
        proof {
            assert(pattern@ =~= search_pattern(old(self).query@));
        }
        let mut texts: Vec<String> = Vec::new();
        let mut k: usize = 0;
        while k < lines.len()
            invariant
                k <= lines@.len(),
                texts@.len() == k,
                forall|i: int| 0 <= i < k ==> (#[trigger] texts@[i])@ == spans_text(lines@[i].spans@),
            decreases lines@.len() - k,
        {
            texts.push(string_of(&text_of_line(&lines[k])));
            k = k + 1;
        }
        match regex_find_all(pattern.as_str(), &texts) {
            Some(found) => {
                self.matches = regex_matches(lines, &texts, &found, Ghost(pattern@));
            },
            None => {
                self.matches = literal_matches(lines, self.query.as_str());
            },
        }
    }

    /// Makes the first match at or below line `viewport_offset` current, or
    /// the first match when none is.
    pub fn jump_nearest(&mut self, viewport_offset: usize)
        ensures
            final(self).query == old(self).query,
            final(self).input_buf == old(self).input_buf,
            final(self).input_active == old(self).input_active,
            final(self).matches == old(self).matches,
            (exists|i: int| 0 <= i < old(self).matches@.len() && #[trigger] old(self).matches@[i].line >= viewport_offset) ==> {
                &&& final(self).matches@[final(self).current_idx as int].line >= viewport_offset
                &&& forall|i: int| 0 <= i < final(self).current_idx ==> #[trigger] old(self).matches@[i].line < viewport_offset
                &&& final(self).current_idx < old(self).matches@.len()
            },
            !(exists|i: int| 0 <= i < old(self).matches@.len() && #[trigger] old(self).matches@[i].line >= viewport_offset) ==> final(self).current_idx == (
            if old(self).matches@.len() > 0 { 0 } else { old(self).current_idx }),
    {
        let mut i: usize = 0;
        while i < self.matches.len()
            invariant
                i <= self.matches@.len(),
                self.query == old(self).query,
                self.input_buf == old(self).input_buf,
                self.input_active == old(self).input_active,
                self.matches == old(self).matches,
                self.current_idx == old(self).current_idx,
                forall|j: int| 0 <= j < i ==> #[trigger] self.matches@[j].line < viewport_offset,
            decreases self.matches@.len() - i,
        {
            if self.matches[i].line >= viewport_offset {
                self.current_idx = i;
                return;
            }
            i = i + 1;
        }
        if self.matches.len() > 0 {
            self.current_idx = 0;
        }
    }

    /// Moves to the next match, wrapping around.
    pub fn next(&mut self)
        requires
            old(self).matches@.len() > 0 ==> old(self).current_idx < usize::MAX,
        ensures
            final(self).query == old(self).query,
            final(self).input_buf == old(self).input_buf,
            final(self).input_active == old(self).input_active,
            final(self).matches == old(self).matches,
            final(self).current_idx == if old(self).matches@.len() == 0 {
                old(self).current_idx as int
            } else {
                (old(self).current_idx + 1) % (old(self).matches@.len() as int)
            },
    {
        if self.matches.len() > 0 {
            self.current_idx = (self.current_idx + 1) % self.matches.len();
        }
    }

    /// Moves to the previous match, wrapping around.
    pub fn prev(&mut self)
        ensures
            final(self).query == old(self).query,
            final(self).input_buf == old(self).input_buf,
            final(self).input_active == old(self).input_active,
            final(self).matches == old(self).matches,
            final(self).current_idx == if old(self).matches@.len() == 0 {
                old(self).current_idx as int
            } else if old(self).current_idx == 0 {
                old(self).matches@.len() - 1
            } else {
                old(self).current_idx - 1
            },
    {
        if self.matches.len() > 0 {
            self.current_idx = if self.current_idx > 0 {
                self.current_idx - 1
            } else {
                self.matches.len() - 1
            };
        }
    }

    /// The line of the current match.
    pub fn current_line(&self) -> (r: Option<usize>)
        ensures
            r == current_match_line(*self),
    {
        if self.current_idx < self.matches.len() {
            Some(self.matches[self.current_idx].line)
        } else {
            None
        }
    }

    /// Whether a search is in effect.
    pub fn has_results(&self) -> (b: bool)
        ensures
            b == (self.query@.len() > 0),
    {
        chars_of(self.query.as_str()).len() > 0
    }

    /// Ends the search.
    pub fn clear(&mut self)
        ensures
            final(self).query@.len() == 0,
            final(self).matches@.len() == 0,
            final(self).current_idx == 0,
            final(self).input_buf == old(self).input_buf,
            final(self).input_active == old(self).input_active,
    {
        self.query = String::new();
        self.matches = Vec::new();
        self.current_idx = 0;
    }

    /// The matches on line `line_idx` as `(start, end, is_current)`, in
    /// order.
    pub fn highlights_for_line(&self, line_idx: usize) -> (h: Vec<(usize, usize, bool)>)
        ensures
            h@ == highlights_in(self.matches@, line_idx, self.current_idx, self.matches@.len() as int),
    {
        let mut h: Vec<(usize, usize, bool)> = Vec::new();
        let mut i: usize = 0;
        while i < self.matches.len()
            invariant
                i <= self.matches@.len(),
                h@ == highlights_in(self.matches@, line_idx, self.current_idx, i as int),
            decreases self.matches@.len() - i,
        {
            let m = self.matches[i];
            if m.line == line_idx {
                h.push((m.start, m.end, i == self.current_idx));
            }
            i = i + 1;
        }
        h
    }
}

/// The line of the current match, if there is one.
pub open spec fn current_match_line(s: SearchState) -> Option<usize> {
    if s.current_idx < s.matches@.len() {
        Some(s.matches@[s.current_idx as int].line)
    } else {
        None
    }
}

/// The highlights of line `line` among the first `k` matches.
pub open spec fn highlights_in(ms: Seq<SearchMatch>, line: usize, current: usize, k: int) -> Seq<(usize, usize, bool)>
    decreases k,
{
    if k <= 0 {
        Seq::empty()
    } else {
        let rest = highlights_in(ms, line, current, k - 1);
        let m = ms[k - 1];
        if m.line == line {
            rest.push((m.start, m.end, k - 1 == current))
        } else {
            rest
        }
    }
}

proof fn lemma_matches_empty_pat(lines: Seq<Line>, q: Seq<char>, k: int)
    requires
        q.len() == 0,
    ensures
        matches_upto(lines, q, k) == Seq::<SearchMatch>::empty(),
    decreases k,
{
    if k > 0 {
        lemma_matches_empty_pat(lines, q, k - 1);
        assert(line_matches(lines, q, k - 1) =~= Seq::<SearchMatch>::empty());
    }
}


/// Scrolls so that the current match is in view when it is not: it then
/// sits a third of the way down the viewport, as far as `max_offset` lets it.
pub fn scroll_to_match(search: &SearchState, offset: &mut usize, viewport: usize, max_offset: usize)
    ensures
        match current_match_line(*search) {
            Some(t) => if t < *old(offset) || t - *old(offset) >= viewport {
                *final(offset) == if t - viewport / 3 <= 0 {
                    0int
                } else if t - viewport / 3 <= max_offset {
                    t - viewport / 3
                } else {
                    max_offset as int
                }
            } else {
                *final(offset) == *old(offset)
            },
            None => *final(offset) == *old(offset),
        },
{
    match search.current_line() {
        Some(target) => {
            if target < *offset || target - *offset >= viewport {
                let top = target.saturating_sub(viewport / 3);
                *offset = if top < max_offset {
                    top
                } else {
                    max_offset
                };
            }
        },
        None => {},
    }
}

/// Scrolling to the current match brings it into view: afterwards it lies
/// within the viewport, unless `max_offset` keeps the view from reaching it.
pub proof fn lemma_scroll_shows_match(t: usize, old_offset: usize, new_offset: usize, viewport: usize, max_offset: usize)
    requires
        viewport > 0,
        t - viewport / 3 <= max_offset,
        if t < old_offset || t - old_offset >= viewport {
            new_offset == if t - viewport / 3 <= 0 {
                0int
            } else if t - viewport / 3 <= max_offset {
                t - viewport / 3
            } else {
                max_offset as int
            }
        } else {
            new_offset == old_offset
        },
    ensures
        new_offset <= t < new_offset + viewport,
{
}

/// Decimal digits of `n`.
pub open spec fn decimal(n: nat) -> Seq<char>
    decreases n,
{
    if n < 10 {
        seq![digit_char(n)]
    } else {
        decimal(n / 10).push(digit_char(n % 10))
    }
}

pub open spec fn digit_char(d: nat) -> char {
    if d == 0 { '0' } else if d == 1 { '1' } else if d == 2 { '2' } else if d == 3 { '3' } else if d == 4 {
        '4'
    } else if d == 5 { '5' } else if d == 6 { '6' } else if d == 7 { '7' } else if d == 8 { '8' } else { '9' }
}

fn digit(d: usize) -> (c: char)
    requires
        d < 10,
    ensures
        c == digit_char(d as nat),
{
    if d == 0 { '0' } else if d == 1 { '1' } else if d == 2 { '2' } else if d == 3 { '3' } else if d == 4 {
        '4'
    } else if d == 5 { '5' } else if d == 6 { '6' } else if d == 7 { '7' } else if d == 8 { '8' } else { '9' }
}

/// The decimal digits of `n`.
pub fn decimal_chars(n: usize) -> (r: Vec<char>)
    ensures
        r@ == decimal(n as nat),
    decreases n,
{
    if n < 10 {
        let mut r: Vec<char> = Vec::new();
        r.push(digit(n));
        proof {
            assert(r@ =~= seq![digit_char(n as nat)]);
        }
        r
    } else {
        let mut r = decimal_chars(n / 10);
        r.push(digit(n % 10));
        r
    }
}

/// Where the view stands in the document: `All` when everything fits,
/// `Top` and `Bot` at the ends, else the percentage shown so far.
pub open spec fn position_label(len: int, offset: int, viewport: int) -> Seq<char> {
    if len <= viewport {
        "All"@
    } else if offset == 0 {
        "Top"@
    } else if offset >= len - viewport {
        "Bot"@
    } else {
        decimal(((offset + viewport) * 100 / len) as nat).push('%')
    }
}

pub fn format_position(lines: &Vec<Line>, offset: usize, viewport: usize) -> (s: String)
    ensures
        s@ == position_label(lines@.len() as int, offset as int, viewport as int),
{
    let len = lines.len();
    if len <= viewport {
        "All".to_string()
    } else if offset == 0 {
        "Top".to_string()
    } else if offset >= len - viewport {
        "Bot".to_string()
    } else {
        let pct = ((offset as u128 + viewport as u128) * 100 / len as u128) as usize;
        proof {
            assert((offset + viewport) * 100 / (len as int) <= 100) by (nonlinear_arith)
                requires offset + viewport < len;
        }
        let mut digits = decimal_chars(pct);
        digits.push('%');
        string_of(&digits)
    }
}


/// The first highlight covering position `pos`, by whether it is the
/// current match.
pub open spec fn highlight_at(hs: Seq<(usize, usize, bool)>, pos: int) -> Option<bool>
    decreases hs.len(),
{
    if hs.len() == 0 {
        None
    } else if hs[0].0 <= pos < hs[0].1 {
        Some(hs[0].2)
    } else {
        highlight_at(hs.drop_first(), pos)
    }
}

/// A span's style under a highlight: the current match gets the current
/// colours in bold, other matches the match background.
pub open spec fn restyle(st: Style, h: Option<bool>, theme: Theme) -> Style {
    match h {
        Some(true) => Style { bg: Some(theme.search_current_bg), fg: Some(theme.search_current_fg), bold: true, ..st },
        Some(false) => Style { bg: Some(theme.search_match_bg), ..st },
        None => st,
    }
}

/// The style of the span that holds character `p` of the spans' text.
pub open spec fn style_at(spans: Seq<StyledSpan>, p: int) -> Style
    decreases spans.len(),
{
    if spans.len() == 0 {
        Style { fg: None, bg: None, bold: false, italic: false, underline: false, strikethrough: false, dim: false, link_url: None }
    } else if p >= spans_text(spans.drop_last()).len() {
        spans.last().style
    } else {
        style_at(spans.drop_last(), p)
    }
}

proof fn lemma_style_at_extend(spans: Seq<StyledSpan>, more: Seq<StyledSpan>, p: int)
    requires
        0 <= p < spans_text(spans).len(),
    ensures
        style_at(spans + more, p) == style_at(spans, p),
    decreases more.len(),
{
    if more.len() > 0 {
        let all = spans + more;
        assert(all.drop_last() =~= spans + more.drop_last());
        lemma_spans_text_len_mono(spans, more.drop_last());
        lemma_style_at_extend(spans, more.drop_last(), p);
    } else {
        assert(spans + more =~= spans);
    }
}

proof fn lemma_spans_text_len_mono(spans: Seq<StyledSpan>, more: Seq<StyledSpan>)
    ensures
        spans_text(spans + more).len() >= spans_text(spans).len(),
        spans_text(spans + more) == spans_text(spans) + spans_text(more),
    decreases more.len(),
{
    if more.len() > 0 {
        assert((spans + more).drop_last() =~= spans + more.drop_last());
        lemma_spans_text_len_mono(spans, more.drop_last());
    } else {
        assert(spans + more =~= spans);
        assert(spans_text(more) =~= Seq::<char>::empty());
        assert(spans_text(spans) + Seq::<char>::empty() =~= spans_text(spans));
    }
}

fn first_highlight(hs: &Vec<(usize, usize, bool)>, pos: usize) -> (h: Option<bool>)
    ensures
        h == highlight_at(hs@, pos as int),
{
    let mut i: usize = 0;
    proof {
        assert(hs@.subrange(0, hs@.len() as int) =~= hs@);
    }
    while i < hs.len()
        invariant
            i <= hs@.len(),
            highlight_at(hs@, pos as int) == highlight_at(hs@.subrange(i as int, hs@.len() as int), pos as int),
        decreases hs@.len() - i,
    {
        let (a, b, cur) = hs[i];
        proof {
            let rest = hs@.subrange(i as int, hs@.len() as int);
            assert(rest[0] == hs@[i as int]);
            assert(rest.drop_first() =~= hs@.subrange(i + 1, hs@.len() as int));
        }
        if a <= pos && pos < b {
            return Some(cur);
        }
        i = i + 1;
    }
    None
}

/// Every piece is non-empty and styled by the span and highlight at its
/// first character.
pub open spec fn pieces_ok(out: Seq<StyledSpan>, spans: Seq<StyledSpan>, hs: Seq<(usize, usize, bool)>, theme: Theme) -> bool {
    &&& forall|k: int| 0 <= k < out.len() ==> (#[trigger] out[k]).text@.len() > 0
    &&& forall|k: int| 0 <= k < out.len() ==> (#[trigger] out[k]).style == restyle(
        style_at(spans, spans_text(out.subrange(0, k)).len() as int),
        highlight_at(hs, spans_text(out.subrange(0, k)).len() as int),
        theme,
    )
}

proof fn lemma_pieces_push(out: Seq<StyledSpan>, piece: StyledSpan, spans: Seq<StyledSpan>, hs: Seq<(usize, usize, bool)>, theme: Theme)
    requires
        pieces_ok(out, spans, hs, theme),
        piece.text@.len() > 0,
        piece.style == restyle(style_at(spans, spans_text(out).len() as int), highlight_at(hs, spans_text(out).len() as int), theme),
    ensures
        pieces_ok(out.push(piece), spans, hs, theme),
{
    let all = out.push(piece);
    let k = out.len() as int;
    assert(all.subrange(0, k) =~= out);
    assert forall|x: int| 0 <= x < all.len() implies (#[trigger] all[x]).style == restyle(
        style_at(spans, spans_text(all.subrange(0, x)).len() as int),
        highlight_at(hs, spans_text(all.subrange(0, x)).len() as int),
        theme,
    ) by {
        if x < k {
            assert(all[x] == out[x]);
            assert(all.subrange(0, x) =~= out.subrange(0, x));
        }
    }
    assert forall|x: int| 0 <= x < all.len() implies (#[trigger] all[x]).text@.len() > 0 by {
        if x < k {
            assert(all[x] == out[x]);
        }
    }
}

/// Character `p` of span `j` takes span `j`'s style.
proof fn lemma_style_in_span(spans: Seq<StyledSpan>, j: int, p: int)
    requires
        0 <= j < spans.len(),
        spans_text(spans.subrange(0, j)).len() <= p < spans_text(spans.subrange(0, j + 1)).len(),
    ensures
        style_at(spans, p) == spans[j].style,
{
    let upto = spans.subrange(0, j + 1);
    assert(upto.drop_last() =~= spans.subrange(0, j));
    assert(style_at(upto, p) == spans[j].style);
    lemma_style_at_extend(upto, spans.subrange(j + 1, spans.len() as int), p);
    assert(upto + spans.subrange(j + 1, spans.len() as int) =~= spans);
}

/// The style each character of the spans is drawn in.
pub open spec fn char_styles(spans: Seq<StyledSpan>) -> Seq<Style>
    decreases spans.len(),
{
    if spans.len() == 0 {
        Seq::empty()
    } else {
        char_styles(spans.drop_last()) + Seq::new(spans.last().text@.len(), |i: int| spans.last().style)
    }
}

/// The styles of the first `n` characters of the spans under the
/// highlights.
pub open spec fn lit_styles(spans: Seq<StyledSpan>, hs: Seq<(usize, usize, bool)>, theme: Theme, n: int) -> Seq<Style> {
    Seq::new(n as nat, |i: int| restyle(style_at(spans, i), highlight_at(hs, i), theme))
}

/// Where no highlight starts or ends strictly between `a` and `b`, every
/// character from `a` up to `b` is lit as `a` is.
proof fn lemma_highlight_flat(hs: Seq<(usize, usize, bool)>, a: int, b: int, i: int)
    requires
        a <= i < b,
        forall|h: int| 0 <= h < hs.len() ==> !(a < (#[trigger] hs[h]).0 < b) && !(a < hs[h].1 < b),
    ensures
        highlight_at(hs, i) == highlight_at(hs, a),
    decreases hs.len(),
{
    if hs.len() > 0 {
        assert(!(a < hs[0].0 < b) && !(a < hs[0].1 < b));
        let rest = hs.drop_first();
        assert forall|h: int| 0 <= h < rest.len() implies !(a < (#[trigger] rest[h]).0 < b) && !(a < rest[h].1 < b) by {
            assert(rest[h] == hs[h + 1]);
        }
        lemma_highlight_flat(rest, a, b, i);
    }
}

/// Splits spans at the edges of the search highlights and gives the
/// highlighted pieces the match colours; see [`restyle`]. The text stays the
/// same.
#[verifier::rlimit(40)]
pub fn apply_search_highlights(spans: &Vec<StyledSpan>, highlights: &Vec<(usize, usize, bool)>, theme: &Theme) -> (out: Vec<StyledSpan>)
    requires
        spans_text(spans@).len() <= usize::MAX,
    ensures
        spans_text(out@) == spans_text(spans@),
        pieces_ok(out@, spans@, highlights@, *theme),
        char_styles(out@) == lit_styles(spans@, highlights@, *theme, spans_text(spans@).len() as int),
{
    let mut out: Vec<StyledSpan> = Vec::new();
    let mut offset: usize = 0;
    let mut j: usize = 0;
    proof {
        assert(spans@.subrange(0, 0) =~= Seq::<StyledSpan>::empty());
    }
    while j < spans.len()
        invariant
            j <= spans@.len(),
            spans_text(spans@).len() <= usize::MAX,
            offset == spans_text(spans@.subrange(0, j as int)).len(),
            spans_text(out@) == spans_text(spans@.subrange(0, j as int)),
            pieces_ok(out@, spans@, highlights@, *theme),
            char_styles(out@) == lit_styles(spans@, highlights@, *theme, offset as int),
        decreases spans@.len() - j,
    {
        let sp = &spans[j];
        let chars = chars_of(sp.text.as_str());
        let len = chars.len();
        proof {
            let sub = spans@.subrange(0, j + 1);
            assert(sub.drop_last() =~= spans@.subrange(0, j as int));
            assert(sub.last() == spans@[j as int]);
            assert(spans@.subrange(0, j + 1) + spans@.subrange(j + 1, spans@.len() as int) =~= spans@);
            lemma_spans_text_len_mono(spans@.subrange(0, j + 1), spans@.subrange(j + 1, spans@.len() as int));
        }
        let span_start = offset;
        let span_end = offset + len;
        // Cut points: the span's ends and every highlight edge inside it.
        let mut cuts: Vec<bool> = Vec::new();
        while cuts.len() <= len
            invariant
                cuts@.len() <= len + 1,
            decreases len + 1 - cuts@.len(),
        {
            cuts.push(false);
        }
        cuts.set(0, true);
        cuts.set(len, true);
        let mut h: usize = 0;
        while h < highlights.len()
            invariant
                cuts@.len() == len + 1,
                cuts@[len as int],
                span_end == span_start + len,
                h <= highlights@.len(),
                forall|k: int| 0 <= k < h ==> {
                    &&& (span_start < (#[trigger] highlights@[k]).0 < span_end ==> cuts@[highlights@[k].0 - span_start])
                    &&& (span_start < highlights@[k].1 < span_end ==> cuts@[highlights@[k].1 - span_start])
                },
            decreases highlights@.len() - h,
        {
            let (hs, he, _) = highlights[h];
            if hs > span_start && hs < span_end {
                cuts.set(hs - span_start, true);
            }
            if he > span_start && he < span_end {
                cuts.set(he - span_start, true);
            }
            h = h + 1;
        }
        let ghost base = spans_text(out@);
        let mut p: usize = 0;
        while p < len
            invariant
                chars@ == sp.text@,
                len == chars@.len(),
                cuts@.len() == len + 1,
                cuts@[len as int],
                p <= len,
                span_start == offset,
                offset == spans_text(spans@.subrange(0, j as int)).len(),
                offset + len <= spans_text(spans@).len() <= usize::MAX,
                spans_text(spans@.subrange(0, j + 1)) == spans_text(spans@.subrange(0, j as int)) + sp.text@,
                spans_text(spans@) == spans_text(spans@.subrange(0, j + 1)) + spans_text(spans@.subrange(j + 1, spans@.len() as int)),
                base == spans_text(spans@.subrange(0, j as int)),
                spans_text(out@) == base + chars@.subrange(0, p as int),
                pieces_ok(out@, spans@, highlights@, *theme),
                j < spans@.len(),
                *sp == spans@[j as int],
                span_end == span_start + len,
                forall|k: int| 0 <= k < highlights@.len() ==> {
                    &&& (span_start < (#[trigger] highlights@[k]).0 < span_end ==> cuts@[highlights@[k].0 - span_start])
                    &&& (span_start < highlights@[k].1 < span_end ==> cuts@[highlights@[k].1 - span_start])
                },
                char_styles(out@) == lit_styles(spans@, highlights@, *theme, spans_text(out@).len() as int),
            decreases len - p,
        {
            let mut q = p + 1;
            while !cuts[q]
                invariant
                    p < q <= len,
                    cuts@.len() == len + 1,
                    cuts@[len as int],
                    forall|x: int| p < x < q ==> !cuts@[x],
                decreases len - q,
            {
                q = q + 1;
            }
            let abs = span_start + p;
            let hl = first_highlight(highlights, abs);
            let mut style = sp.style.clone();
            match hl {
                Some(true) => {
                    style.bg = Some(theme.search_current_bg);
                    style.fg = Some(theme.search_current_fg);
                    style.bold = true;
                },
                Some(false) => {
                    style.bg = Some(theme.search_match_bg);
                },
                None => {},
            }
            let piece = StyledSpan { text: string_of_chars(&chars, p, q), style };
            let ghost o0 = out@;
            proof {
                assert(spans_text(o0).len() == abs);
                lemma_style_in_span(spans@, j as int, abs as int);
                lemma_pieces_push(o0, piece, spans@, highlights@, *theme);
            }
            out.push(piece);
            proof {
                let n0 = spans_text(o0).len() as int;
                let m = (q - p) as int;
                assert forall|i: int| n0 <= i < n0 + m implies restyle(style_at(spans@, i), highlight_at(highlights@, i), *theme) == style by {
                    lemma_style_in_span(spans@, j as int, i);
                    assert forall|k: int| 0 <= k < highlights@.len() implies !(abs < (#[trigger] highlights@[k]).0 < abs + m) && !(abs < highlights@[k].1 < abs + m) by {
                        if abs < highlights@[k].0 < abs + m {
                            assert(cuts@[highlights@[k].0 - span_start]);
                        }
                        if abs < highlights@[k].1 < abs + m {
                            assert(cuts@[highlights@[k].1 - span_start]);
                        }
                    }
                    lemma_highlight_flat(highlights@, abs as int, abs + m, i);
                }
                assert(out@.drop_last() =~= o0);
                assert(char_styles(out@) =~= lit_styles(spans@, highlights@, *theme, n0 + m));
                assert(out@ == o0.push(piece));
                assert(out@.drop_last() =~= o0);
                assert(chars@.subrange(0, p as int) + chars@.subrange(p as int, q as int) =~= chars@.subrange(0, q as int));
                assert(spans_text(out@) =~= base + chars@.subrange(0, q as int));
            }
            p = q;
        }
        proof {
            assert(chars@.subrange(0, len as int) =~= chars@);
        }
        offset = span_end;
        j = j + 1;
    }
    proof {
        assert(spans@.subrange(0, spans@.len() as int) =~= spans@);
    }
    out
}

fn string_of_chars(v: &Vec<char>, lo: usize, hi: usize) -> (s: String)
    requires
        lo <= hi <= v.len(),
    ensures
        s@ == v@.subrange(lo as int, hi as int),
{
    crate::text::string_of_range(v, lo, hi)
}


// ───── the frame ─────

/// Rows `[start, end)` of the viewport carry the scrollbar thumb; the
/// thumb is as tall as the visible share of the document (at least one row)
/// and slides with the offset.
pub open spec fn scroll_thumb(total: int, viewport: int, offset: int) -> (int, int) {
    if total > viewport && viewport > 0 {
        let size0 = viewport * viewport / total;
        let size1 = if size0 < 1 { 1 } else { size0 };
        let size = if size1 > viewport { viewport } else { size1 };
        let max_off = total - viewport;
        let track = if viewport > size { viewport - size } else { 0 };
        let pos = if max_off > 0 && track > 0 { offset * track / max_off } else { 0 };
        (pos, if pos + size < viewport { pos + size } else { viewport })
    } else {
        (0, 0)
    }
}

fn thumb_of(total: usize, viewport: usize, offset: usize) -> (t: (usize, usize))
    ensures
        t.0 == if scroll_thumb(total as int, viewport as int, offset as int).0 < viewport {
            scroll_thumb(total as int, viewport as int, offset as int).0
        } else {
            viewport as int
        },
        t.1 == scroll_thumb(total as int, viewport as int, offset as int).1,
{
    if total > viewport && viewport > 0 {
        proof {
            assert((viewport as int) * (viewport as int) <= 0xffff_ffff_ffff_ffff_ffff_ffff_ffff_ffff) by (nonlinear_arith)
                requires viewport <= 0xffff_ffff_ffff_ffffu64;
            assert((viewport as int) * (viewport as int) / (total as int) <= viewport) by (nonlinear_arith)
                requires viewport < total, total > 0;
        }
        let vv: u128 = viewport as u128 * viewport as u128;
        let size0 = (vv / total as u128) as usize;
        let size1 = if size0 < 1 { 1 } else { size0 };
        let size = if size1 > viewport { viewport } else { size1 };
        let max_off = total - viewport;
        let track = if viewport > size { viewport - size } else { 0 };
        let pos: u128 = if max_off > 0 && track > 0 {
            proof {
                assert((offset as int) * (track as int) <= 0xffff_ffff_ffff_ffff_ffff_ffff_ffff_ffff) by (nonlinear_arith)
                    requires offset <= 0xffff_ffff_ffff_ffffu64, track <= 0xffff_ffff_ffff_ffffu64;
            }
            let prod: u128 = offset as u128 * track as u128;
            proof {
                assert((offset as int) * (track as int) <= 0xffff_ffff_ffff_fffe_0000_0000_0000_0001) by (nonlinear_arith)
                    requires offset <= 0xffff_ffff_ffff_ffffu64, track <= 0xffff_ffff_ffff_ffffu64;
                assert(prod / (max_off as u128) <= prod) by (nonlinear_arith)
                    requires max_off >= 1;
            }
            prod / max_off as u128
        } else {
            0
        };
        assert(pos <= 0xffff_ffff_ffff_fffe_0000_0000_0000_0001u128);
        let start = if pos < viewport as u128 { pos as usize } else { viewport };
        let end = if pos + (size as u128) < viewport as u128 { (pos + size as u128) as usize } else { viewport };
        (start, end)
    } else {
        (0, 0)
    }
}


/// The thumb rows as drawn: a start past the viewport means no thumb.
pub open spec fn shown_thumb(total: int, viewport: int, offset: int) -> (int, int) {
    let t = scroll_thumb(total, viewport, offset);
    (if t.0 < viewport { t.0 } else { viewport }, t.1)
}

pub open spec fn spaces(n: int) -> Seq<char> {
    Seq::new(if n > 0 { n as nat } else { 0 }, |i: int| ' ')
}

/// The text of viewport row `row`: the left border, the document line at
/// `offset + row` padded to the content width (or blank), and the right
/// border or scrollbar.
pub open spec fn content_row_text(lines: Seq<Line>, offset: int, row: int, cw: int, thumb: (int, int), has_sb: bool) -> Seq<char> {
    let idx = offset + row;
    let body = if 0 <= idx < lines.len() {
        let t = spans_text(lines[idx].spans@);
        if t.len() < cw { t + spaces(cw - t.len()) } else { t }
    } else {
        spaces(cw)
    };
    "│ "@ + body + if has_sb && thumb.0 <= row < thumb.1 { " ┃"@ } else { " │"@ }
}

fn text_span(text: &str, fg: Color) -> (s: StyledSpan)
    ensures
        s.text@ == text@,
        s.style == Style::fg_spec(fg),
{
    StyledSpan { text: string_of(&chars_of(text)), style: Style::fg(fg) }
}

fn blank_span(n: usize, bg: Option<Color>) -> (s: StyledSpan)
    ensures
        s.text@ == spaces(n as int),
        s.style == bg_style(bg),
{
    let mut t: Vec<char> = Vec::new();
    while t.len() < n
        invariant
            t@.len() <= n,
            t@ == Seq::new(t@.len(), |i: int| ' '),
        decreases n - t@.len(),
    {
        t.push(' ');
        proof {
            assert(t@ =~= Seq::new(t@.len(), |i: int| ' '));
        }
    }
    StyledSpan { text: string_of(&t), style: Style::colors(None, bg) }
}

fn repeat_span(c: char, n: usize, fg: Color) -> (s: StyledSpan)
    ensures
        s.text@ == Seq::new(n as nat, |i: int| c),
        s.style == Style::fg_spec(fg),
{
    let mut t: Vec<char> = Vec::new();
    while t.len() < n
        invariant
            t@.len() <= n,
            t@ == Seq::new(t@.len(), |i: int| c),
        decreases n - t@.len(),
    {
        t.push(c);
        proof {
            assert(t@ =~= Seq::new(t@.len(), |i: int| c));
        }
    }
    StyledSpan { text: string_of(&t), style: Style::fg(fg) }
}

fn copy_spans(v: &Vec<StyledSpan>) -> (r: Vec<StyledSpan>)
    ensures
        r@ == v@,
{
    let mut r: Vec<StyledSpan> = Vec::new();
    let mut i: usize = 0;
    while i < v.len()
        invariant
            i <= v@.len(),
            r@ == v@.subrange(0, i as int),
        decreases v@.len() - i,
    {
        r.push(v[i].clone());
        i = i + 1;
        proof {
            assert(r@ =~= v@.subrange(0, i as int));
        }
    }
    proof {
        assert(r@ =~= v@);
    }
    r
}

/// `n` characters in colour `c`.
pub open spec fn painted(n: int, c: Color) -> Seq<Style> {
    Seq::new(if n > 0 { n as nat } else { 0 }, |i: int| Style::fg_spec(c))
}

/// A style with only the background `bg`.
pub open spec fn bg_style(bg: Option<Color>) -> Style {
    Style { fg: None, bg, bold: false, italic: false, underline: false, strikethrough: false, dim: false, link_url: None }
}

/// The background every span has, where all have the same one.
pub open spec fn shared_bg(spans: Seq<StyledSpan>) -> Option<Color> {
    if spans.len() > 0 && spans[0].style.bg is Some && forall|k: int| 0 <= k < spans.len() ==> (#[trigger] spans[k]).style.bg == spans[0].style.bg {
        spans[0].style.bg
    } else {
        None
    }
}

/// The colours of the top border: frame, file name, frame.
pub open spec fn top_styles(filename: Seq<char>, width: int, th: Theme) -> Seq<Style> {
    let label = filename.len() + 2int;
    painted(2, th.border) + painted(label, th.title) + painted(width - (3 + label), th.border) + painted(1, th.border)
}

/// The colours of the bottom bar; see [`bottom_text`].
pub open spec fn bottom_styles(s: SearchState, position: Seq<char>, width: int, th: Theme) -> Seq<Style> {
    if s.input_active {
        let label = s.input_buf@.len() + 4int;
        painted(2, th.border) + painted(label, th.search_prompt) + painted(width - (3 + label), th.border) + painted(1, th.border)
    } else if s.query@.len() > 0 {
        let pos = position.len() + 2int;
        let info = if s.matches@.len() == 0 {
            10int
        } else {
            decimal((s.current_idx + 1) as nat).len() + decimal(s.matches@.len()).len() + 3int
        };
        let info_fg = if s.matches@.len() == 0 { th.search_no_match } else { th.search_prompt };
        painted(2, th.border) + painted(info, info_fg) + painted(width - (4 + info + pos), th.border) + painted(pos, th.position) + painted(2, th.border)
    } else {
        let pos = position.len() + 2int;
        let needed = pos + 20 + 4;
        painted(2, th.border) + (if width > needed {
            painted(20, th.help_hint) + painted(width - needed, th.border)
        } else {
            painted(width - (pos + 4), th.border)
        }) + painted(pos, th.position) + painted(2, th.border)
    }
}

/// The colours of one viewport row: the frame, the line's own styles (lit
/// where the search matches), a padding in the line's shared background, the
/// scrollbar.
pub open spec fn content_row_styles(
    lines: Seq<Line>,
    offset: int,
    row: int,
    cw: int,
    thumb: (int, int),
    has_sb: bool,
    search: SearchState,
    th: Theme,
) -> Seq<Style> {
    let idx = offset + row;
    let body = if 0 <= idx < lines.len() {
        let spans = lines[idx].spans@;
        let t = spans_text(spans).len() as int;
        let hs = highlights_in(search.matches@, idx as usize, search.current_idx, search.matches@.len() as int);
        let own = if hs.len() == 0 || t >= usize::MAX {
            char_styles(spans)
        } else {
            lit_styles(spans, hs, th, t)
        };
        own + if t < cw {
            Seq::new((cw - t) as nat, |i: int| bg_style(shared_bg(spans)))
        } else {
            Seq::empty()
        }
    } else {
        Seq::new(if cw > 0 { cw as nat } else { 0 }, |i: int| bg_style(None))
    };
    let edge = if has_sb && thumb.0 <= row < thumb.1 {
        th.scrollbar_thumb
    } else if has_sb {
        th.scrollbar_track
    } else {
        th.border
    };
    painted(2, th.border) + body + painted(2, edge)
}

/// The background shared by all spans of a line, if they share one.
fn common_bg(spans: &Vec<StyledSpan>) -> (bg: Option<Color>)
    ensures
        bg == shared_bg(spans@),
{
    if spans.len() == 0 {
        return None;
    }
    let first = spans[0].style.bg;
    match first {
        Some(b) => {
            let mut i: usize = 0;
            while i < spans.len()
                invariant
                    i <= spans@.len(),
                    spans@.len() > 0,
                    spans@[0].style.bg == Some(b),
                    forall|k: int| 0 <= k < i ==> (#[trigger] spans@[k]).style.bg == Some(b),
                decreases spans@.len() - i,
            {
                if spans[i].style.bg != Some(b) {
                    return None;
                }
                i = i + 1;
            }
            Some(b)
        },
        None => None,
    }
}

proof fn lemma_spans_text_push2(spans: Seq<StyledSpan>, s: StyledSpan)
    ensures
        spans_text(spans.push(s)) == spans_text(spans) + s.text@,
{
    assert(spans.push(s).drop_last() =~= spans);
}

/// One viewport row: see [`content_row_text`].
fn content_row(
    lines: &Vec<Line>,
    offset: usize,
    row: usize,
    cw: usize,
    thumb: (usize, usize),
    has_sb: bool,
    search: &SearchState,
    theme: &Theme,
) -> (r: Line)
    ensures
        spans_text(r.spans@) == content_row_text(lines@, offset as int, row as int, cw as int, (thumb.0 as int, thumb.1 as int), has_sb),
        char_styles(r.spans@) == content_row_styles(lines@, offset as int, row as int, cw as int, (thumb.0 as int, thumb.1 as int), has_sb, *search, *theme),
{
    let mut spans: Vec<StyledSpan> = Vec::new();
    let left = text_span("│ ", theme.border);
    proof {
        lemma_spans_text_push2(spans@, left);
        assert(spans_text(spans@) =~= Seq::<char>::empty());
        reveal_strlit("│ ");
        reveal_strlit(" │");
        reveal_strlit(" ┃");
    }
    spans.push(left);
    let ghost s0 = spans_text(spans@);
    let ghost c0 = char_styles(spans@);
    proof {
        assert(s0 =~= "│ "@);
        assert(spans@.drop_last() =~= Seq::<StyledSpan>::empty());
        assert(char_styles(spans@.drop_last()) =~= Seq::<Style>::empty());
        assert(left.text@.len() == 2);
        assert(spans@.last() == left);
        assert(c0 == char_styles(spans@.drop_last()) + Seq::new(left.text@.len(), |x: int| left.style));
        assert(c0 =~= painted(2, theme.border));
    }
    let ghost body_st: Seq<Style>;
    let idx = offset.checked_add(row);
    let in_doc = match idx {
        Some(i) => i < lines.len(),
        None => false,
    };
    let ghost body: Seq<char>;
    if in_doc {
        let i = offset + row;
        let line = &lines[i];
        let highlights = search.highlights_for_line(i);
        let width = line.display_width();
        let shown = if highlights.len() == 0 || width == usize::MAX {
            copy_spans(&line.spans)
        } else {
            apply_search_highlights(&line.spans, &highlights, theme)
        };
        let ghost t = spans_text(line.spans@);
        proof {
            assert(spans_text(shown@) == t);
            assert(lines@[i as int] == *line);
        }
        let mut k: usize = 0;
        proof {
            assert(shown@.subrange(0, 0) =~= Seq::<StyledSpan>::empty());
            assert(c0 + Seq::<Style>::empty() =~= c0);
        }
        while k < shown.len()
            invariant
                k <= shown@.len(),
                spans_text(spans@) == s0 + spans_text(shown@.subrange(0, k as int)),
                char_styles(spans@) == c0 + char_styles(shown@.subrange(0, k as int)),
            decreases shown@.len() - k,
        {
            let ghost before = spans@;
            spans.push(shown[k].clone());
            proof {
                lemma_spans_text_push2(before, shown@[k as int]);
                let sub = shown@.subrange(0, k + 1);
                assert(sub.drop_last() =~= shown@.subrange(0, k as int));
                assert(sub.last() == shown@[k as int]);
                assert(spans_text(spans@) =~= s0 + spans_text(sub));
                assert(spans@.drop_last() =~= before);
                assert(char_styles(spans@) =~= c0 + char_styles(sub));
            }
            k = k + 1;
        }
        proof {
            assert(shown@.subrange(0, shown@.len() as int) =~= shown@);
        }
        let col = width;
        proof {
            assert((t.len() < cw) == (col < cw));
        }
        let ghost own = char_styles(shown@);
        if col < cw {
            let bg = common_bg(&line.spans);
            let pad = blank_span(cw - col, bg);
            let ghost before = spans@;
            spans.push(pad);
            proof {
                lemma_spans_text_push2(before, pad);
                assert(spans_text(spans@) =~= s0 + (t + spaces(cw - t.len())));
                body = t + spaces(cw - t.len());
                assert(spans@.drop_last() =~= before);
                body_st = own + Seq::new((cw - t.len()) as nat, |x: int| bg_style(shared_bg(line.spans@)));
                assert(char_styles(spans@) =~= c0 + body_st);
            }
        } else {
            proof {
                body = t;
                assert(spans_text(spans@) =~= s0 + body);
                body_st = own + Seq::<Style>::empty();
                assert(char_styles(spans@) =~= c0 + body_st);
            }
        }
    } else {
        let pad = blank_span(cw, None);
        let ghost before = spans@;
        spans.push(pad);
        proof {
            lemma_spans_text_push2(before, pad);
            body = spaces(cw as int);
            assert(spans_text(spans@) =~= s0 + body);
            assert(spans@.drop_last() =~= before);
            body_st = Seq::new(cw as nat, |x: int| bg_style(None));
            assert(char_styles(spans@) =~= c0 + body_st);
        }
    }
    let right = if has_sb && row >= thumb.0 && row < thumb.1 {
        text_span(" ┃", theme.scrollbar_thumb)
    } else if has_sb {
        text_span(" │", theme.scrollbar_track)
    } else {
        text_span(" │", theme.border)
    };
    let ghost before = spans@;
    spans.push(right);
    proof {
        lemma_spans_text_push2(before, right);
        let idx = offset + row;
        let sb = if 0 <= idx < lines@.len() {
            let t = spans_text(lines@[idx].spans@);
            if t.len() < cw { t + spaces(cw - t.len()) } else { t }
        } else {
            spaces(cw as int)
        };
        assert(lines@.len() == lines.len());
        assert(in_doc == (0 <= idx < lines@.len()));
        assert(body == sb);
        let rt = if has_sb && thumb.0 <= row < thumb.1 { " ┃"@ } else { " │"@ };
        assert(right.text@ == rt);
        assert(spans_text(spans@) == "│ "@ + sb + rt);
        assert(spans@.drop_last() =~= before);
        let edge = if has_sb && thumb.0 <= row < thumb.1 {
            theme.scrollbar_thumb
        } else if has_sb {
            theme.scrollbar_track
        } else {
            theme.border
        };
        assert(Seq::new(right.text@.len(), |x: int| right.style) =~= painted(2, edge));
        assert(char_styles(spans@) =~= c0 + body_st + painted(2, edge));
    }
    Line { spans }
}


pub open spec fn dashes(n: int) -> Seq<char> {
    Seq::new(if n > 0 { n as nat } else { 0 }, |i: int| '─')
}

/// The top border: the file name set into the frame's top edge.
pub open spec fn top_text(filename: Seq<char>, width: int) -> Seq<char> {
    let label = seq![' '] + filename + seq![' '];
    "╭─"@ + label + dashes(width - (3 + label.len())) + seq!['╮']
}

/// The bottom bar: the search prompt while typing, the match count and
/// position after a search, else the position and a hint where it fits.
pub open spec fn bottom_text(s: SearchState, position: Seq<char>, width: int) -> Seq<char> {
    if s.input_active {
        let label = " /"@ + s.input_buf@ + "█ "@;
        "╰─"@ + label + dashes(width - (3 + label.len())) + seq!['╯']
    } else if s.query@.len() > 0 {
        let pos = seq![' '] + position + seq![' '];
        let info = if s.matches@.len() == 0 {
            " no match "@
        } else {
            seq![' '] + decimal((s.current_idx + 1) as nat) + seq!['/'] + decimal(s.matches@.len()) + seq![' ']
        };
        "╰─"@ + info + dashes(width - (4 + info.len() + pos.len())) + pos + "─╯"@
    } else {
        let pos = seq![' '] + position + seq![' '];
        let hint = " / search · t theme "@;
        let needed = 4 + hint.len() + pos.len();
        if width > needed {
            "╰─"@ + hint + dashes(width - needed) + pos + "─╯"@
        } else {
            "╰─"@ + dashes(width - (4 + pos.len())) + pos + "─╯"@
        }
    }
}

fn push_text(spans: &mut Vec<StyledSpan>, text: &str, fg: Color)
    ensures
        spans_text(final(spans)@) == spans_text(old(spans)@) + text@,
        char_styles(final(spans)@) == char_styles(old(spans)@) + painted(text@.len() as int, fg),
{
    let sp = text_span(text, fg);
    proof {
        lemma_spans_text_push2(old(spans)@, sp);
        assert(old(spans)@.push(sp).drop_last() =~= old(spans)@);
        assert(Seq::new(sp.text@.len(), |i: int| sp.style) =~= painted(text@.len() as int, fg));
    }
    spans.push(sp);
}

fn push_dashes(spans: &mut Vec<StyledSpan>, n: usize, fg: Color)
    ensures
        spans_text(final(spans)@) == spans_text(old(spans)@) + dashes(n as int),
        char_styles(final(spans)@) == char_styles(old(spans)@) + painted(n as int, fg),
{
    let sp = repeat_span('─', n, fg);
    proof {
        lemma_spans_text_push2(old(spans)@, sp);
        assert(sp.text@ =~= dashes(n as int));
        assert(old(spans)@.push(sp).drop_last() =~= old(spans)@);
        assert(Seq::new(sp.text@.len(), |i: int| sp.style) =~= painted(n as int, fg));
    }
    spans.push(sp);
}

fn top_row(filename: &str, width: usize, theme: &Theme) -> (r: Line)
    ensures
        spans_text(r.spans@) == top_text(filename@, width as int),
        char_styles(r.spans@) == top_styles(filename@, width as int, *theme),
{
    let mut label: Vec<char> = Vec::new();
    label.push(' ');
    crate::text::push_str(&mut label, filename);
    label.push(' ');
    let label_str = string_of(&label);
    let fill = width.saturating_sub(label.len().saturating_add(3));
    let mut spans: Vec<StyledSpan> = Vec::new();
    proof {
        assert(spans_text(spans@) =~= Seq::<char>::empty());
        assert(char_styles(spans@) =~= Seq::<Style>::empty());
    }
    push_text(&mut spans, "╭─", theme.border);
    push_text(&mut spans, label_str.as_str(), theme.title);
    push_dashes(&mut spans, fill, theme.border);
    push_text(&mut spans, "╮", theme.border);
    proof {
        reveal_strlit("╮");
        reveal_strlit("╭─");
        assert(char_styles(spans@) =~= top_styles(filename@, width as int, *theme));
        assert(label@ =~= seq![' '] + filename@ + seq![' ']);
        assert(spans_text(spans@) =~= top_text(filename@, width as int));
    }
    Line { spans }
}

fn bottom_row(search: &SearchState, position: &String, width: usize, theme: &Theme) -> (r: Line)
    requires
        search.matches@.len() > 0 ==> search.current_idx < usize::MAX,
    ensures
        spans_text(r.spans@) == bottom_text(*search, position@, width as int),
        char_styles(r.spans@) == bottom_styles(*search, position@, width as int, *theme),
{
    let mut spans: Vec<StyledSpan> = Vec::new();
    proof {
        assert(spans_text(spans@) =~= Seq::<char>::empty());
        assert(char_styles(spans@) =~= Seq::<Style>::empty());
        reveal_strlit("╰─");
        reveal_strlit("─╯");
        reveal_strlit(" / search · t theme ");
        reveal_strlit(" no match ");
        reveal_strlit(" /");
        reveal_strlit("█ ");
        reveal_strlit("╯");
        reveal_strlit(" ");
    }
    push_text(&mut spans, "╰─", theme.border);
    if search.input_active {
        let mut label: Vec<char> = Vec::new();
        crate::text::push_str(&mut label, " /");
        crate::text::push_str(&mut label, search.input_buf.as_str());
        crate::text::push_str(&mut label, "█ ");
        let fill = width.saturating_sub(label.len().saturating_add(3));
        push_text(&mut spans, string_of(&label).as_str(), theme.search_prompt);
        push_dashes(&mut spans, fill, theme.border);
        push_text(&mut spans, "╯", theme.border);
        proof {
            assert(spans_text(spans@) =~= bottom_text(*search, position@, width as int));
            assert(char_styles(spans@) =~= bottom_styles(*search, position@, width as int, *theme));
        }
    } else if search.has_results() {
        let mut pos: Vec<char> = Vec::new();
        pos.push(' ');
        crate::text::push_str(&mut pos, position.as_str());
        pos.push(' ');
        let mut info: Vec<char> = Vec::new();
        if search.matches.len() == 0 {
            crate::text::push_str(&mut info, " no match ");
        } else {
            info.push(' ');
            crate::text::push_all(&mut info, &decimal_chars(search.current_idx + 1));
            info.push('/');
            crate::text::push_all(&mut info, &decimal_chars(search.matches.len()));
            info.push(' ');
        }
        let info_fg = if search.matches.len() == 0 { theme.search_no_match } else { theme.search_prompt };
        let fill = width.saturating_sub(info.len().saturating_add(pos.len()).saturating_add(4));
        push_text(&mut spans, string_of(&info).as_str(), info_fg);
        push_dashes(&mut spans, fill, theme.border);
        push_text(&mut spans, string_of(&pos).as_str(), theme.position);
        push_text(&mut spans, "─╯", theme.border);
        proof {
            assert(pos@ =~= seq![' '] + position@ + seq![' ']);
            assert(spans_text(spans@) =~= bottom_text(*search, position@, width as int));
            assert(char_styles(spans@) =~= bottom_styles(*search, position@, width as int, *theme));
        }
    } else {
        let mut pos: Vec<char> = Vec::new();
        pos.push(' ');
        crate::text::push_str(&mut pos, position.as_str());
        pos.push(' ');
        let hint_len = chars_of(" / search · t theme ").len();
        let needed = pos.len().saturating_add(hint_len).saturating_add(4);
        if width > needed {
            push_text(&mut spans, " / search · t theme ", theme.help_hint);
            push_dashes(&mut spans, width - needed, theme.border);
        } else {
            push_dashes(&mut spans, width.saturating_sub(pos.len().saturating_add(4)), theme.border);
        }
        push_text(&mut spans, string_of(&pos).as_str(), theme.position);
        push_text(&mut spans, "─╯", theme.border);
        proof {
            assert(pos@ =~= seq![' '] + position@ + seq![' ']);
            assert(spans_text(spans@) =~= bottom_text(*search, position@, width as int));
            assert(char_styles(spans@) =~= bottom_styles(*search, position@, width as int, *theme));
        }
    }
    Line { spans }
}

/// What the pager shows: the top border with the file name, `viewport`
/// rows of the document from line `offset`, search matches highlighted,
/// with a scrollbar when the document is longer than the view, and the
/// bottom bar.
pub fn render_frame(
    lines: &Vec<Line>,
    offset: usize,
    width: usize,
    viewport: usize,
    filename: &str,
    search: &SearchState,
    theme: &Theme,
) -> (rows: Vec<Line>)
    requires
        viewport < usize::MAX - 1,
        search.matches@.len() > 0 ==> search.current_idx < usize::MAX,
    ensures
        rows@.len() == viewport + 2,
        spans_text(rows@[0].spans@) == top_text(filename@, width as int),
        forall|r: int| 0 <= r < viewport ==> spans_text((#[trigger] rows@[r + 1]).spans@) == content_row_text(
            lines@,
            offset as int,
            r,
            if width >= 4 { width - 4 } else { 0 },
            shown_thumb(lines@.len() as int, viewport as int, offset as int),
            lines@.len() > viewport && viewport > 0,
        ),
        spans_text(rows@[viewport + 1].spans@) == bottom_text(*search, position_label(lines@.len() as int, offset as int, viewport as int), width as int),
        char_styles(rows@[0].spans@) == top_styles(filename@, width as int, *theme),
        forall|r: int| 0 <= r < viewport ==> char_styles((#[trigger] rows@[r + 1]).spans@) == content_row_styles(
            lines@,
            offset as int,
            r,
            if width >= 4 { width - 4 } else { 0 },
            shown_thumb(lines@.len() as int, viewport as int, offset as int),
            lines@.len() > viewport && viewport > 0,
            *search,
            *theme,
        ),
        char_styles(rows@[viewport + 1].spans@) == bottom_styles(*search, position_label(lines@.len() as int, offset as int, viewport as int), width as int, *theme),
{
    let cw = width.saturating_sub(4);
    let total = lines.len();
    let has_sb = total > viewport && viewport > 0;
    let thumb = thumb_of(total, viewport, offset);
    let mut rows: Vec<Line> = Vec::new();
    rows.push(top_row(filename, width, theme));
    let mut r: usize = 0;
    while r < viewport
        invariant
            r <= viewport,
            viewport < usize::MAX - 1,
            rows@.len() == r + 1,
            spans_text(rows@[0].spans@) == top_text(filename@, width as int),
            forall|x: int| 0 <= x < r ==> spans_text((#[trigger] rows@[x + 1]).spans@) == content_row_text(
                lines@, offset as int, x, cw as int, (thumb.0 as int, thumb.1 as int), has_sb),
            char_styles(rows@[0].spans@) == top_styles(filename@, width as int, *theme),
            forall|x: int| 0 <= x < r ==> char_styles((#[trigger] rows@[x + 1]).spans@) == content_row_styles(
                lines@, offset as int, x, cw as int, (thumb.0 as int, thumb.1 as int), has_sb, *search, *theme),
        decreases viewport - r,
    {
        let row = content_row(lines, offset, r, cw, thumb, has_sb, search, theme);
        let ghost before = rows@;
        rows.push(row);
        proof {
            assert forall|x: int| 0 <= x < r + 1 implies spans_text((#[trigger] rows@[x + 1]).spans@) == content_row_text(
                lines@, offset as int, x, cw as int, (thumb.0 as int, thumb.1 as int), has_sb) by {
                if x < r {
                    assert(rows@[x + 1] == before[x + 1]);
                }
            }
            assert forall|x: int| 0 <= x < r + 1 implies char_styles((#[trigger] rows@[x + 1]).spans@) == content_row_styles(
                lines@, offset as int, x, cw as int, (thumb.0 as int, thumb.1 as int), has_sb, *search, *theme) by {
                if x < r {
                    assert(rows@[x + 1] == before[x + 1]);
                }
            }
            assert(rows@[0] == before[0]);
        }
        r = r + 1;
    }
    let position = format_position(lines, offset, viewport);
    let ghost before = rows@;
    rows.push(bottom_row(search, &position, width, theme));
    proof {
        assert forall|x: int| 0 <= x < viewport implies spans_text((#[trigger] rows@[x + 1]).spans@) == content_row_text(
            lines@, offset as int, x, cw as int, (thumb.0 as int, thumb.1 as int), has_sb) by {
            assert(rows@[x + 1] == before[x + 1]);
        }
        assert forall|x: int| 0 <= x < viewport implies char_styles((#[trigger] rows@[x + 1]).spans@) == content_row_styles(
            lines@, offset as int, x, cw as int, (thumb.0 as int, thumb.1 as int), has_sb, *search, *theme) by {
            assert(rows@[x + 1] == before[x + 1]);
        }
        assert(rows@[0] == before[0]);
    }
    rows
}


// ───── the pager's decisions ─────

/// A key as the pager sees it.
#[derive(Clone, Copy, PartialEq, Eq, Structural, Debug)]
pub enum Key {
    Char(char),
    Esc,
    Enter,
    Backspace,
    Up,
    Down,
    PageUp,
    PageDown,
    Home,
    End,
    Other,
}

/// An input event: a key press (with whether Ctrl was held), a mouse wheel
/// step, or a new terminal size.
#[derive(Clone, Copy, PartialEq, Eq, Structural, Debug)]
pub enum ViewerEvent {
    Key(Key, bool),
    ScrollDown,
    ScrollUp,
    Resize(u16, u16),
    Other,
}

/// What the caller has to do after an event.
#[derive(Clone, Copy, PartialEq, Eq, Structural, Debug)]
pub enum Action {
    /// Draw the next frame.
    Continue,
    /// Leave the pager.
    Quit,
    /// Switch to the other theme, render again, then [`Viewer::after_rerender`].
    ThemeToggled,
    /// Render again for the new size, then [`Viewer::after_rerender`].
    Resized,
}

/// The pager's state between frames.
pub struct Viewer {
    /// First document line in view.
    pub offset: usize,
    pub search: SearchState,
    pub cols: u16,
    pub rows: u16,
}

/// Rows available for the document: all but the two borders.
pub open spec fn viewport_of(rows: u16) -> int {
    if rows >= 2 { rows - 2 } else { 0 }
}

/// The largest offset that still fills the viewport.
pub open spec fn max_offset_of(len: int, rows: u16) -> int {
    if len >= viewport_of(rows) { len - viewport_of(rows) } else { 0 }
}

/// The wheel scrolls down as far as leaves one row besides the last line.
pub open spec fn wheel_max_offset(len: int, rows: u16) -> int {
    let keep = if rows >= 1 { rows - 1 } else { 0 };
    if len >= keep { len - keep } else { 0 }
}

pub open spec fn min_int(a: int, b: int) -> int {
    if a < b { a } else { b }
}

/// A search, as values: the query, the text at the prompt, the matches,
/// the current one and whether the prompt is open.
pub struct SearchV {
    pub query: Seq<char>,
    pub input: Seq<char>,
    pub matches: Seq<SearchMatch>,
    pub current: usize,
    pub active: bool,
}

/// A pager, as values.
pub struct ViewerV {
    pub offset: usize,
    pub search: SearchV,
    pub cols: u16,
    pub rows: u16,
}

pub open spec fn search_v(s: SearchState) -> SearchV {
    SearchV { query: s.query@, input: s.input_buf@, matches: s.matches@, current: s.current_idx, active: s.input_active }
}

pub open spec fn viewer_v(v: Viewer) -> ViewerV {
    ViewerV { offset: v.offset, search: search_v(v.search), cols: v.cols, rows: v.rows }
}

/// The first match from index `i` on that lies at or below line `off`.
pub open spec fn first_from(ms: Seq<SearchMatch>, off: int, i: int) -> Option<int>
    decreases ms.len() - i,
{
    if i < 0 || i >= ms.len() {
        None
    } else if ms[i].line >= off {
        Some(i)
    } else {
        first_from(ms, off, i + 1)
    }
}

/// The match to make current near line `off`: the first at or below it,
/// else the first of all; `cur` when there is none.
pub open spec fn nearest(ms: Seq<SearchMatch>, off: int, cur: usize) -> usize {
    match first_from(ms, off, 0) {
        Some(i) => i as usize,
        None => if ms.len() > 0 {
            0
        } else {
            cur
        },
    }
}

/// The offset after scrolling to the current match of `s` (see
/// [`scroll_to_match`]).
pub open spec fn scrolled(off: int, s: SearchV, vp: int, mx: int) -> int {
    if s.current < s.matches.len() {
        let t = s.matches[s.current as int].line as int;
        if t < off || t - off >= vp {
            if t - vp / 3 <= 0 {
                0
            } else if t - vp / 3 <= mx {
                t - vp / 3
            } else {
                mx
            }
        } else {
            off
        }
    } else {
        off
    }
}

/// A key at the open search prompt: `Esc` closes it, `Enter` runs the
/// typed query, jumps to the nearest match and scrolls to it, `Backspace`
/// takes the last character back, a character is typed.
pub open spec fn prompt_key(v: ViewerV, k: Key, lines: Seq<Line>) -> ViewerV {
    let s = v.search;
    match k {
        Key::Esc => ViewerV { search: SearchV { active: false, input: Seq::empty(), ..s }, ..v },
        Key::Enter => {
            let ms = all_matches(lines, s.input);
            let s2 = SearchV { active: false, query: s.input, matches: ms, current: nearest(ms, v.offset as int, 0), ..s };
            ViewerV {
                search: s2,
                offset: scrolled(v.offset as int, s2, viewport_of(v.rows), max_offset_of(lines.len() as int, v.rows)) as usize,
                ..v
            }
        },
        Key::Backspace => ViewerV {
            search: SearchV {
                input: if s.input.len() > 0 {
                    s.input.drop_last()
                } else {
                    s.input
                },
                ..s
            },
            ..v
        },
        Key::Char(c) => ViewerV { search: SearchV { input: s.input.push(c), ..s }, ..v },
        _ => v,
    }
}

pub open spec fn at_offset(v: ViewerV, off: int) -> ViewerV {
    ViewerV { offset: off as usize, ..v }
}

/// A key outside the search prompt: `q` quits, `Esc` ends a search or
/// quits, `t` asks for the other theme, `/` opens the prompt, `n`/`N` go to
/// the next or previous match, the arrows and `j`/`k` move by a line, space,
/// `b` and the page keys by a page, `d`/`u` (with or without Ctrl) by half a
/// page, `g`/`Home` and `G`/`End` to the ends.
pub open spec fn pager_key(v: ViewerV, k: Key, ctrl: bool, lines: Seq<Line>) -> (ViewerV, Action) {
    let s = v.search;
    let off = v.offset as int;
    let vp = viewport_of(v.rows);
    let mx = max_offset_of(lines.len() as int, v.rows);
    let found = s.query.len() > 0;
    if k == Key::Char('q') {
        (v, Action::Quit)
    } else if k == Key::Esc {
        if found {
            (ViewerV { search: SearchV { query: Seq::empty(), matches: Seq::empty(), current: 0, ..s }, ..v }, Action::Continue)
        } else {
            (v, Action::Quit)
        }
    } else if k == Key::Char('t') {
        (v, Action::ThemeToggled)
    } else if k == Key::Char('/') {
        (ViewerV { search: SearchV { active: true, input: Seq::empty(), ..s }, ..v }, Action::Continue)
    } else if k == Key::Char('n') && found {
        let cur = if s.matches.len() == 0 {
            s.current as int
        } else {
            (s.current + 1) % (s.matches.len() as int)
        };
        let s2 = SearchV { current: cur as usize, ..s };
        (ViewerV { search: s2, offset: scrolled(off, s2, vp, mx) as usize, ..v }, Action::Continue)
    } else if k == Key::Char('N') && found {
        let cur = if s.matches.len() == 0 {
            s.current as int
        } else if s.current == 0 {
            s.matches.len() - 1
        } else {
            s.current - 1
        };
        let s2 = SearchV { current: cur as usize, ..s };
        (ViewerV { search: s2, offset: scrolled(off, s2, vp, mx) as usize, ..v }, Action::Continue)
    } else if k == Key::Down || k == Key::Char('j') {
        (at_offset(v, min_int(off + 1, mx)), Action::Continue)
    } else if k == Key::Up || k == Key::Char('k') {
        (at_offset(v, if off >= 1 { off - 1 } else { 0 }), Action::Continue)
    } else if k == Key::Char(' ') || k == Key::PageDown {
        (at_offset(v, min_int(off + vp, mx)), Action::Continue)
    } else if k == Key::Char('b') || k == Key::PageUp {
        (at_offset(v, if off >= vp { off - vp } else { 0 }), Action::Continue)
    } else if k == Key::Char('d') {
        (at_offset(v, min_int(off + vp / 2, mx)), Action::Continue)
    } else if k == Key::Char('u') {
        (at_offset(v, if off >= vp / 2 { off - vp / 2 } else { 0 }), Action::Continue)
    } else if k == Key::Char('g') || k == Key::Home {
        (at_offset(v, 0), Action::Continue)
    } else if k == Key::Char('G') || k == Key::End {
        (at_offset(v, mx), Action::Continue)
    } else {
        (v, Action::Continue)
    }
}

/// A key press: Ctrl-`c` quits wherever it comes; otherwise the open
/// prompt or the pager takes it.
pub open spec fn key_step(v: ViewerV, k: Key, ctrl: bool, lines: Seq<Line>) -> (ViewerV, Action) {
    if k == Key::Char('c') && ctrl {
        (v, Action::Quit)
    } else if v.search.active {
        (prompt_key(v, k, lines), Action::Continue)
    } else {
        pager_key(v, k, ctrl, lines)
    }
}

/// What an event does to the pager over `lines`, and what the caller has
/// to do next.
pub open spec fn viewer_step(v: ViewerV, ev: ViewerEvent, lines: Seq<Line>) -> (ViewerV, Action) {
    match ev {
        ViewerEvent::Key(k, ctrl) => key_step(v, k, ctrl, lines),
        ViewerEvent::ScrollDown => (at_offset(v, min_int(v.offset + 3, wheel_max_offset(lines.len() as int, v.rows))), Action::Continue),
        ViewerEvent::ScrollUp => (at_offset(v, if v.offset >= 3 { v.offset - 3 } else { 0 }), Action::Continue),
        ViewerEvent::Resize(c, r) => (ViewerV { cols: c, rows: r, ..v }, Action::Resized),
        ViewerEvent::Other => (v, Action::Continue),
    }
}

/// What [`SearchState::jump_nearest`] makes current is [`nearest`].
proof fn lemma_jump_is_nearest(before: SearchState, after: SearchState, off: int)
    requires
        after.matches == before.matches,
        (exists|i: int| 0 <= i < before.matches@.len() && #[trigger] before.matches@[i].line >= off) ==> {
            &&& after.matches@[after.current_idx as int].line >= off
            &&& forall|i: int| 0 <= i < after.current_idx ==> #[trigger] before.matches@[i].line < off
            &&& after.current_idx < before.matches@.len()
        },
        !(exists|i: int| 0 <= i < before.matches@.len() && #[trigger] before.matches@[i].line >= off) ==> after.current_idx == (
        if before.matches@.len() > 0 { 0 } else { before.current_idx }),
    ensures
        after.current_idx == nearest(before.matches@, off, before.current_idx),
{
    let ms = before.matches@;
    if exists|i: int| 0 <= i < ms.len() && #[trigger] ms[i].line >= off {
        let c = after.current_idx as int;
        lemma_first_from(ms, off, 0, c);
    } else {
        lemma_first_none(ms, off, 0);
    }
}

proof fn lemma_first_from(ms: Seq<SearchMatch>, off: int, i: int, c: int)
    requires
        0 <= i <= c < ms.len(),
        ms[c].line >= off,
        forall|j: int| 0 <= j < c ==> #[trigger] ms[j].line < off,
    ensures
        first_from(ms, off, i) == Some(c),
    decreases c - i,
{
    if i < c {
        lemma_first_from(ms, off, i + 1, c);
    }
}

proof fn lemma_first_none(ms: Seq<SearchMatch>, off: int, i: int)
    requires
        0 <= i,
        forall|j: int| 0 <= j < ms.len() ==> #[trigger] ms[j].line < off,
    ensures
        first_from(ms, off, i) is None,
    decreases ms.len() - i,
{
    if i < ms.len() {
        lemma_first_none(ms, off, i + 1);
    }
}

impl Viewer {
    pub fn new(cols: u16, rows: u16) -> (v: Viewer)
        ensures
            v.offset == 0,
            v.cols == cols,
            v.rows == rows,
            v.search.query@.len() == 0,
            v.search.matches@.len() == 0,
            !v.search.input_active,
    {
        Viewer { offset: 0, search: SearchState::new(), cols, rows }
    }

    /// Rows available for the document.
    pub fn viewport(&self) -> (n: usize)
        ensures
            n == viewport_of(self.rows),
    {
        (self.rows as usize).saturating_sub(2)
    }

    /// Keeps the offset within the document: it never passes the largest
    /// offset that still fills the viewport.
    pub fn clamp(&mut self, lines: &Vec<Line>)
        ensures
            final(self).offset == min_int(old(self).offset as int, max_offset_of(lines@.len() as int, old(self).rows)),
            final(self).search == old(self).search,
            final(self).cols == old(self).cols,
            final(self).rows == old(self).rows,
    {
        let max_offset = lines.len().saturating_sub(self.viewport());
        if self.offset > max_offset {
            self.offset = max_offset;
        }
    }

    /// After the document was rendered again: a search in effect is run
    /// again and jumps to the first match in view or below.
    pub fn after_rerender(&mut self, lines: &Vec<Line>)
        ensures
            final(self).offset == old(self).offset,
            final(self).cols == old(self).cols,
            final(self).rows == old(self).rows,
            old(self).search.query@.len() > 0 ==> final(self).search.matches@ == all_matches(lines@, old(self).search.query@),
            old(self).search.query@.len() == 0 ==> final(self).search == old(self).search,
    {
        if self.search.has_results() {
            self.search.find_matches(lines);
            self.search.jump_nearest(self.offset);
        }
    }

    /// A key at the open search prompt; see [`prompt_key`].
    fn prompt_input(&mut self, key: Key, lines: &Vec<Line>)
        requires
            old(self).search.input_active,
            old(self).search.matches@.len() > 0 ==> old(self).search.current_idx < usize::MAX,
        ensures
            final(self).search.matches@.len() > 0 ==> final(self).search.current_idx < usize::MAX,
            viewer_v(*final(self)) == prompt_key(viewer_v(*old(self)), key, lines@),
    {
        let viewport = self.viewport();
        let max_offset = lines.len().saturating_sub(viewport);
        match key {
            Key::Esc => {
                self.search.input_active = false;
                self.search.input_buf = String::new();
            },
            Key::Enter => {
                self.search.input_active = false;
                self.search.execute(lines);
                proof {
                    assert(self.search.matches@.len() == self.search.matches.len());
                }
                let ghost s1 = self.search;
                self.search.jump_nearest(self.offset);
                proof {
                    lemma_jump_is_nearest(s1, self.search, self.offset as int);
                }
                scroll_to_match(&self.search, &mut self.offset, viewport, max_offset);
            },
            Key::Backspace => {
                let mut buf = chars_of(self.search.input_buf.as_str());
                buf.pop();
                self.search.input_buf = string_of(&buf);
                proof {
                    if old(self).search.input_buf@.len() > 0 {
                        assert(self.search.input_buf@ =~= old(self).search.input_buf@.drop_last());
                    }
                }
            },
            Key::Char(c) => {
                let mut buf = chars_of(self.search.input_buf.as_str());
                buf.push(c);
                self.search.input_buf = string_of(&buf);
            },
            _ => {},
        }
    }

    /// A key outside the search prompt; see [`pager_key`].
    fn pager_input(&mut self, key: Key, ctrl: bool, lines: &Vec<Line>) -> (action: Action)
        requires
            old(self).search.matches@.len() > 0 ==> old(self).search.current_idx < usize::MAX,
            !old(self).search.input_active,
        ensures
            final(self).search.matches@.len() > 0 ==> final(self).search.current_idx < usize::MAX,
            (viewer_v(*final(self)), action) == pager_key(viewer_v(*old(self)), key, ctrl, lines@),
    {
        let viewport = self.viewport();
        let max_offset = lines.len().saturating_sub(viewport);
        proof {
            assert(self.search.matches@.len() == self.search.matches.len());
        }
        match key {
            Key::Char('q') => Action::Quit,
            Key::Esc => {
                if self.search.has_results() {
                    self.search.clear();
                    proof {
                        assert(self.search.query@ =~= Seq::<char>::empty());
                        assert(self.search.matches@ =~= Seq::<SearchMatch>::empty());
                    }
                    Action::Continue
                } else {
                    Action::Quit
                }
            },
            Key::Char('t') => Action::ThemeToggled,
            Key::Char('/') => {
                self.search.input_active = true;
                self.search.input_buf = String::new();
                Action::Continue
            },
            Key::Char('n') if self.search.has_results() => {
                self.search.next();
                proof {
                    assert(self.search.matches@.len() == self.search.matches.len());
                }
                scroll_to_match(&self.search, &mut self.offset, viewport, max_offset);
                Action::Continue
            },
            Key::Char('N') if self.search.has_results() => {
                self.search.prev();
                scroll_to_match(&self.search, &mut self.offset, viewport, max_offset);
                Action::Continue
            },
            Key::Down | Key::Char('j') => {
                self.offset = if self.offset < max_offset { self.offset + 1 } else { max_offset };
                Action::Continue
            },
            Key::Up | Key::Char('k') => {
                self.offset = self.offset.saturating_sub(1);
                Action::Continue
            },
            Key::Char(' ') | Key::PageDown => {
                self.offset = if self.offset.saturating_add(viewport) < max_offset {
                    self.offset + viewport
                } else {
                    max_offset
                };
                Action::Continue
            },
            Key::Char('d') => {
                let half = viewport / 2;
                self.offset = if self.offset.saturating_add(half) < max_offset {
                    self.offset + half
                } else {
                    max_offset
                };
                Action::Continue
            },
            Key::Char('b') | Key::PageUp => {
                self.offset = self.offset.saturating_sub(viewport);
                Action::Continue
            },
            Key::Char('u') => {
                self.offset = self.offset.saturating_sub(viewport / 2);
                Action::Continue
            },
            Key::Char('g') | Key::Home => {
                self.offset = 0;
                Action::Continue
            },
            Key::Char('G') | Key::End => {
                self.offset = max_offset;
                Action::Continue
            },
            _ => Action::Continue,
        }
    }

    /// Handles a key press; see [`key_step`].
    fn handle_key(&mut self, key: Key, ctrl: bool, lines: &Vec<Line>) -> (action: Action)
        requires
            old(self).search.matches@.len() > 0 ==> old(self).search.current_idx < usize::MAX,
        ensures
            final(self).search.matches@.len() > 0 ==> final(self).search.current_idx < usize::MAX,
            (viewer_v(*final(self)), action) == key_step(viewer_v(*old(self)), key, ctrl, lines@),
    {
        match key {
            Key::Char(ch) => {
                if ch == 'c' && ctrl {
                    return Action::Quit;
                }
            },
            _ => {},
        }
        if self.search.input_active {
            self.prompt_input(key, lines);
            return Action::Continue;
        }
        self.pager_input(key, ctrl, lines)
    }

    /// Handles one input event: scrolling, search input and navigation,
    /// theme toggling, resizing and quitting.
    pub fn handle(&mut self, event: ViewerEvent, lines: &Vec<Line>) -> (action: Action)
        requires
            old(self).search.matches@.len() > 0 ==> old(self).search.current_idx < usize::MAX,
        ensures
            final(self).search.matches@.len() > 0 ==> final(self).search.current_idx < usize::MAX,
            (viewer_v(*final(self)), action) == viewer_step(viewer_v(*old(self)), event, lines@),
    {
        match event {
            ViewerEvent::Key(key, ctrl) => self.handle_key(key, ctrl, lines),
            ViewerEvent::ScrollDown => {
                let max2 = lines.len().saturating_sub((self.rows as usize).saturating_sub(1));
                self.offset = if self.offset.saturating_add(3) < max2 { self.offset + 3 } else { max2 };
                Action::Continue
            },
            ViewerEvent::ScrollUp => {
                self.offset = self.offset.saturating_sub(3);
                Action::Continue
            },
            ViewerEvent::Resize(c, r) => {
                self.cols = c;
                self.rows = r;
                Action::Resized
            },
            ViewerEvent::Other => Action::Continue,
        }
    }
}

/// Next match, then previous match, comes back to where it started.
pub proof fn lemma_next_prev_round_trip(idx: int, len: int)
    requires
        len > 0,
        0 <= idx < len,
    ensures
        ({
            let n = (idx + 1) % len;
            (if n == 0 { len - 1 } else { n - 1 }) == idx
        }),
{
    let n = (idx + 1) % len;
    if idx + 1 < len {
        assert(n == idx + 1) by (nonlinear_arith)
            requires n == (idx + 1) % len, 0 <= idx + 1 < len;
    } else {
        assert(n == 0) by (nonlinear_arith)
            requires n == (idx + 1) % len, idx + 1 == len, len > 0;
    }
}

// ───── a whole run of the pager ─────

/// The view with its offset kept within the document (see
/// [`Viewer::clamp`]).
pub open spec fn clamped(v: ViewerV, lines: Seq<Line>) -> ViewerV {
    at_offset(v, min_int(v.offset as int, max_offset_of(lines.len() as int, v.rows)))
}

/// The views the pager's frames show over `lines` as it takes the events
/// `evs`: each round clamps the view, draws it, and hands it the next
/// event; the run ends after an event that quits, or when no event is left.
pub open spec fn pager_frames(v: ViewerV, evs: Seq<ViewerEvent>, lines: Seq<Line>) -> Seq<ViewerV>
    decreases evs.len(),
{
    let c = clamped(v, lines);
    if evs.len() == 0 {
        seq![c]
    } else {
        let (v2, a) = viewer_step(c, evs[0], lines);
        if a == Action::Quit {
            seq![c]
        } else {
            seq![c] + pager_frames(v2, evs.drop_first(), lines)
        }
    }
}

/// Over a whole run, every frame is drawn with the offset within the
/// document; each frame but the first shows the view the event before it
/// left, clamped, and the run stops right after the first event that
/// quits.
pub proof fn lemma_pager_run(v: ViewerV, evs: Seq<ViewerEvent>, lines: Seq<Line>)
    ensures
        ({
            let fs = pager_frames(v, evs, lines);
            &&& 1 <= fs.len() <= evs.len() + 1
            &&& forall|i: int| 0 <= i < fs.len() ==> (#[trigger] fs[i]).offset <= max_offset_of(lines.len() as int, fs[i].rows)
            &&& forall|i: int| 0 <= i < fs.len() - 1 ==> {
                &&& (#[trigger] viewer_step(fs[i], evs[i], lines)).1 != Action::Quit
                &&& fs[i + 1] == clamped(viewer_step(fs[i], evs[i], lines).0, lines)
            }
            &&& fs.len() <= evs.len() ==> viewer_step(fs[fs.len() - 1], evs[fs.len() - 1], lines).1 == Action::Quit
        }),
    decreases evs.len(),
{
    let fs = pager_frames(v, evs, lines);
    let c = clamped(v, lines);
    assert(max_offset_of(lines.len() as int, v.rows) >= 0);
    assert(c.offset <= max_offset_of(lines.len() as int, c.rows));
    if evs.len() > 0 {
        let (v2, a) = viewer_step(c, evs[0], lines);
        if a != Action::Quit {
            lemma_pager_run(v2, evs.drop_first(), lines);
            let rest = pager_frames(v2, evs.drop_first(), lines);
            assert(fs == seq![c] + rest);
            assert forall|i: int| 0 <= i < fs.len() implies (#[trigger] fs[i]).offset <= max_offset_of(lines.len() as int, fs[i].rows) by {
                if i > 0 {
                    assert(fs[i] == rest[i - 1]);
                }
            }
            assert forall|i: int| 0 <= i < fs.len() - 1 implies {
                &&& (#[trigger] viewer_step(fs[i], evs[i], lines)).1 != Action::Quit
                &&& fs[i + 1] == clamped(viewer_step(fs[i], evs[i], lines).0, lines)
            } by {
                if i > 0 {
                    assert(fs[i] == rest[i - 1]);
                    assert(fs[i + 1] == rest[i]);
                    assert(evs[i] == evs.drop_first()[i - 1]);
                } else {
                    assert(fs[1] == rest[0]);
                }
            }
            if fs.len() <= evs.len() {
                assert(fs[fs.len() - 1] == rest[rest.len() - 1]);
                assert(evs[fs.len() - 1] == evs.drop_first()[rest.len() - 1]);
            }
        }
    }
}

/// In a run, with the search prompt closed, `j`/`Down` moves the next frame
/// one line down as far as the last full page, `k`/`Up` one line up as far
/// as the top, `g`/`Home` to the top and `G`/`End` to the last full page.
pub proof fn lemma_pager_run_moves(v: ViewerV, evs: Seq<ViewerEvent>, lines: Seq<Line>, i: int, k: Key, ctrl: bool)
    requires
        lines.len() <= usize::MAX,
        0 <= i < pager_frames(v, evs, lines).len() - 1,
        !pager_frames(v, evs, lines)[i].search.active,
        evs[i] == ViewerEvent::Key(k, ctrl),
        k != Key::Char('c'),
    ensures
        ({
            let f = pager_frames(v, evs, lines);
            let mx = max_offset_of(lines.len() as int, f[i].rows);
            let off = f[i].offset as int;
            &&& (k == Key::Down || k == Key::Char('j')) ==> f[i + 1].offset == min_int(off + 1, mx)
            &&& (k == Key::Up || k == Key::Char('k')) ==> f[i + 1].offset == (if off >= 1 { off - 1 } else { 0 })
            &&& (k == Key::Home || k == Key::Char('g')) ==> f[i + 1].offset == 0
            &&& (k == Key::End || k == Key::Char('G')) ==> f[i + 1].offset == mx
        }),
{
    lemma_pager_run(v, evs, lines);
    let f = pager_frames(v, evs, lines);
    let st = viewer_step(f[i], evs[i], lines);
    assert(f[i + 1] == clamped(st.0, lines));
    assert(f[i].offset <= max_offset_of(lines.len() as int, f[i].rows));
    assert(max_offset_of(lines.len() as int, f[i].rows) >= 0);
    assert(st == pager_key(f[i], k, ctrl, lines));
    assert(st.0.rows == f[i].rows);
}

/// The occurrences a search finds are true, in order, and miss none: each
/// found range holds the pattern, the ranges come left to right without
/// overlapping, and every place the pattern occurs at lies inside a found
/// range.
pub proof fn lemma_occurrences_exact(text: Seq<char>, pat: Seq<char>, from: int)
    requires
        pat.len() > 0,
        from >= 0,
    ensures
        ({
            let r = occurrences(text, pat, from);
            &&& forall|k: int| 0 <= k < r.len() ==> (#[trigger] r[k]).0 >= from && r[k].1 == r[k].0 + pat.len() && occurs_at(
                text,
                pat,
                r[k].0,
            )
            &&& forall|k: int| 0 <= k < r.len() - 1 ==> (#[trigger] r[k]).1 <= r[k + 1].0
            &&& forall|j: int| from <= j && #[trigger] occurs_at(text, pat, j) ==> exists|k: int|
                0 <= k < r.len() && (#[trigger] r[k]).0 <= j < r[k].1
        }),
{
    lemma_occ_sound(text, pat, from);
    let r = occurrences(text, pat, from);
    assert forall|j: int| from <= j && #[trigger] occurs_at(text, pat, j) implies exists|k: int|
        0 <= k < r.len() && (#[trigger] r[k]).0 <= j < r[k].1 by {
        lemma_occ_complete(text, pat, from, j);
    }
}

proof fn lemma_occ_sound(text: Seq<char>, pat: Seq<char>, from: int)
    requires
        pat.len() > 0,
        from >= 0,
    ensures
        ({
            let r = occurrences(text, pat, from);
            &&& forall|k: int| 0 <= k < r.len() ==> (#[trigger] r[k]).0 >= from && r[k].1 == r[k].0 + pat.len() && occurs_at(
                text,
                pat,
                r[k].0,
            )
            &&& forall|k: int| 0 <= k < r.len() - 1 ==> (#[trigger] r[k]).1 <= r[k + 1].0
        }),
    decreases text.len() - from,
{
    let r = occurrences(text, pat, from);
    if from < text.len() {
        if let Some(i) = first_occ(text, pat, from) {
            assert(is_first_occ(text, pat, from, i));
            let e = i + pat.len();
            if i >= from && e <= text.len() {
                lemma_occ_sound(text, pat, e);
                let rest = occurrences(text, pat, e);
                assert(r == seq![(i, e)] + rest);
                assert forall|k: int| 0 <= k < r.len() implies (#[trigger] r[k]).0 >= from && r[k].1 == r[k].0 + pat.len()
                    && occurs_at(text, pat, r[k].0) by {
                    if k > 0 {
                        assert(r[k] == rest[k - 1]);
                    }
                }
                assert forall|k: int| 0 <= k < r.len() - 1 implies (#[trigger] r[k]).1 <= r[k + 1].0 by {
                    assert(r[k + 1] == rest[k]);
                    if k > 0 {
                        assert(r[k] == rest[k - 1]);
                    }
                }
            }
        }
    }
}

proof fn lemma_occ_complete(text: Seq<char>, pat: Seq<char>, from: int, j: int)
    requires
        pat.len() > 0,
        from >= 0,
        from <= j,
        occurs_at(text, pat, j),
    ensures
        exists|k: int| 0 <= k < occurrences(text, pat, from).len() && (#[trigger] occurrences(text, pat, from)[k]).0 <= j
            < occurrences(text, pat, from)[k].1,
    decreases text.len() - from,
{
    let r = occurrences(text, pat, from);
    assert(j + pat.len() <= text.len());
    lemma_first_occurrence_exists(text, pat, from, j);
    let i = first_occ(text, pat, from)->0;
    assert(is_first_occ(text, pat, from, i));
    let e = i + pat.len();
    assert(r == seq![(i, e)] + occurrences(text, pat, e));
    if j < e {
        assert(i <= j) by {
            if j < i {
                assert(!occurs_at(text, pat, j));
            }
        }
        assert(r[0].0 <= j < r[0].1);
    } else {
        lemma_occ_complete(text, pat, e, j);
        let rest = occurrences(text, pat, e);
        let k2 = choose|k2: int| 0 <= k2 < rest.len() && (#[trigger] rest[k2]).0 <= j < rest[k2].1;
        assert(r[k2 + 1] == rest[k2]);
    }
}

proof fn lemma_first_occurrence_exists(text: Seq<char>, pat: Seq<char>, from: int, j: int)
    requires
        from <= j,
        occurs_at(text, pat, j),
    ensures
        first_occ(text, pat, from) is Some,
    decreases j - from,
{
    if forall|q: int| from <= q < j ==> !#[trigger] occurs_at(text, pat, q) {
        assert(is_first_occ(text, pat, from, j));
    } else {
        let q = choose|q: int| from <= q < j && #[trigger] occurs_at(text, pat, q);
        lemma_first_occurrence_exists(text, pat, from, q);
        let i = choose|i: int| is_first_occ(text, pat, from, i);
        assert(is_first_occ(text, pat, from, i));
    }
}

} // verus!
