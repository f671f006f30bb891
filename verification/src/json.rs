//! State of the interactive JSON explorer: which nodes are expanded and
//! where the cursor is.
use vstd::prelude::*;
use crate::export::{has_prefix, starts_with};
use crate::style::{Color, Line, Style, StyledSpan};
use crate::text::{chars_of, eq_ignore_ascii_case, push_all, push_str, string_of, utf8_len};
use crate::theme::Theme;
use crate::viewer::{decimal, decimal_chars, digit_char};

verus! {

/// Navigable node in the interactive JSON view.
pub struct NavItem {
    pub line_index: usize,
    pub path: String,
}

/// State for the interactive JSON explorer.
///
/// `expanded` holds each expanded path once; it stands for a set.
pub struct JsonViewState {
    pub expanded: Vec<String>,
    pub cursor: usize,
    pub navigable: Vec<NavItem>,
    /// Path of the cursor before a rebuild, used to restore position.
    pub cursor_path_save: Option<String>,
}

/// The paths of a list of expanded nodes, as texts.
pub open spec fn path_set(v: Seq<String>) -> Set<Seq<char>> {
    Set::new(|p: Seq<char>| exists|i: int| 0 <= i < v.len() && (#[trigger] v[i])@ == p)
}

/// No path occurs twice.
pub open spec fn no_duplicate_paths(v: Seq<String>) -> bool {
    forall|i: int, j: int| 0 <= i < j < v.len() ==> (#[trigger] v[i])@ != (#[trigger] v[j])@
}

/// The first index whose path is `p`, among the navigable items.
pub open spec fn first_nav_with_path(nav: Seq<NavItem>, p: Seq<char>, i: int) -> bool {
    &&& 0 <= i < nav.len()
    &&& nav[i].path@ == p
    &&& forall|j: int| 0 <= j < i ==> (#[trigger] nav[j]).path@ != p
}

/// Index of the first navigable item whose path is `p`, if any.
pub open spec fn nav_index_of(nav: Seq<NavItem>, p: Seq<char>) -> Option<int> {
    if exists|i: int| first_nav_with_path(nav, p, i) {
        Some(choose|i: int| first_nav_with_path(nav, p, i))
    } else {
        None
    }
}

/// `clamp(x, lo, hi)` for `lo <= hi`.
pub open spec fn clamp(x: int, lo: int, hi: int) -> int {
    if x < lo {
        lo
    } else if x > hi {
        hi
    } else {
        x
    }
}

impl JsonViewState {
    /// The expanded paths as a set.
    pub open spec fn expanded_paths(&self) -> Set<Seq<char>> {
        path_set(self.expanded@)
    }

    /// The state is well formed when no path is expanded twice.
    pub open spec fn wf(&self) -> bool {
        no_duplicate_paths(self.expanded@)
    }

    pub fn new() -> (r: Self)
        ensures
            r.wf(),
            r.expanded_paths() == Set::<Seq<char>>::empty(),
            r.expanded@.len() == 0,
            r.cursor == 0,
            r.navigable@.len() == 0,
            r.cursor_path_save is None,
    {
        let r = JsonViewState {
            expanded: Vec::new(),
            cursor: 0,
            navigable: Vec::new(),
            cursor_path_save: None,
        };
        assert(r.expanded_paths() =~= Set::<Seq<char>>::empty());
        r
    }

    /// Toggle expand/collapse for the node under the cursor.
    pub fn toggle_current(&mut self)
        requires
            old(self).wf(),
        ensures
            final(self).wf(),
            final(self).cursor == old(self).cursor,
            final(self).navigable@ == old(self).navigable@,
            old(self).cursor < old(self).navigable@.len() ==> {
                let p = old(self).navigable@[old(self).cursor as int].path@;
                &&& final(self).cursor_path_save matches Some(s) && s@ == p
                &&& final(self).expanded_paths() == if old(self).expanded_paths().contains(p) {
                    old(self).expanded_paths().remove(p)
                } else {
                    old(self).expanded_paths().insert(p)
                }
            },
            old(self).cursor >= old(self).navigable@.len() ==> final(self).expanded@
                == old(self).expanded@ && final(self).cursor_path_save == old(
                self,
            ).cursor_path_save,
    {
        if self.cursor >= self.navigable.len() {
            return;
        }
        let path = self.navigable[self.cursor].path.clone();
        self.cursor_path_save = Some(path.clone());
        let ghost before = self.expanded@;
        match position_of_path(&self.expanded, &path) {
            Some(i) => {
                self.expanded.remove(i);
                proof {
                    lemma_remove_path(before, i as int);
                }
            },
            None => {
                self.expanded.push(path);
                proof {
                    lemma_push_path(before, path);
                }
            },
        }
    }

    pub fn cursor_line(&self) -> (r: Option<usize>)
        ensures
            r == if self.cursor < self.navigable@.len() {
                Some(self.navigable@[self.cursor as int].line_index)
            } else {
                None::<usize>
            },
    {
        if self.cursor < self.navigable.len() {
            Some(self.navigable[self.cursor].line_index)
        } else {
            None
        }
    }

    pub fn cursor_path(&self) -> (r: Option<&str>)
        ensures
            match r {
                Some(p) => self.cursor < self.navigable@.len() && p@
                    == self.navigable@[self.cursor as int].path@,
                None => self.cursor >= self.navigable@.len(),
            },
    {
        if self.cursor < self.navigable.len() {
            Some(self.navigable[self.cursor].path.as_str())
        } else {
            None
        }
    }

    /// Moves the cursor by `delta`, staying on a navigable item.
    pub fn move_cursor(&mut self, delta: i32)
        requires
            old(self).navigable@.len() <= i32::MAX,
            old(self).cursor <= i32::MAX,
            i32::MIN <= old(self).cursor + delta <= i32::MAX,
        ensures
            final(self).expanded@ == old(self).expanded@,
            final(self).navigable@ == old(self).navigable@,
            final(self).cursor_path_save == old(self).cursor_path_save,
            final(self).cursor == if old(self).navigable@.len() == 0 {
                old(self).cursor as int
            } else {
                clamp(old(self).cursor + delta, 0, old(self).navigable@.len() - 1)
            },
    {
        if self.navigable.len() == 0 {
            return;
        }
        let target: i64 = self.cursor as i64 + delta as i64;
        let last: i64 = self.navigable.len() as i64 - 1;
        let new = if target < 0 {
            0
        } else if target > last {
            last
        } else {
            target
        };
        self.cursor = new as usize;
    }

    /// After a rebuild, restore cursor to the same path (or clamp).
    pub fn restore_cursor(&mut self)
        ensures
            final(self).cursor_path_save is None,
            final(self).expanded@ == old(self).expanded@,
            final(self).navigable@ == old(self).navigable@,
            final(self).cursor == match old(self).cursor_path_save {
                Some(s) => match nav_index_of(old(self).navigable@, s@) {
                    Some(i) => i,
                    None => if old(self).cursor >= old(self).navigable@.len() {
                        if old(self).navigable@.len() == 0 {
                            0
                        } else {
                            old(self).navigable@.len() - 1
                        }
                    } else {
                        old(self).cursor as int
                    },
                },
                None => if old(self).cursor >= old(self).navigable@.len() {
                    if old(self).navigable@.len() == 0 {
                        0
                    } else {
                        old(self).navigable@.len() - 1
                    }
                } else {
                    old(self).cursor as int
                },
            },
    {
        let saved = self.cursor_path_save.take();
        if let Some(p) = saved {
            if let Some(i) = nav_position(&self.navigable, &p) {
                self.cursor = i;
                return;
            }
        }
        if self.cursor >= self.navigable.len() {
            self.cursor = if self.navigable.len() == 0 {
                0
            } else {
                self.navigable.len() - 1
            };
        }
    }
}

/// Index of the first entry of `v` equal to `p`.
fn position_of_path(v: &Vec<String>, p: &String) -> (r: Option<usize>)
    ensures
        match r {
            Some(i) => i < v@.len() && v@[i as int]@ == p@,
            None => forall|j: int| 0 <= j < v@.len() ==> (#[trigger] v@[j])@ != p@,
        },
{
    let mut i: usize = 0;
    while i < v.len()
        invariant
            i <= v.len(),
            forall|j: int| 0 <= j < i ==> (#[trigger] v@[j])@ != p@,
        decreases v.len() - i,
    {
        if v[i] == *p {
            return Some(i);
        }
        i = i + 1;
    }
    None
}

/// Index of the first navigable item whose path is `p`.
fn nav_position(nav: &Vec<NavItem>, p: &String) -> (r: Option<usize>)
    ensures
        match r {
            Some(i) => nav_index_of(nav@, p@) == Some(i as int),
            None => nav_index_of(nav@, p@) is None,
        },
{
    let mut i: usize = 0;
    while i < nav.len()
        invariant
            i <= nav.len(),
            forall|j: int| 0 <= j < i ==> (#[trigger] nav@[j]).path@ != p@,
        decreases nav.len() - i,
    {
        if nav[i].path == *p {
            proof {
                assert(first_nav_with_path(nav@, p@, i as int));
                let k = choose|k: int| first_nav_with_path(nav@, p@, k);
                if i < k {
                    assert(nav@[i as int].path@ == p@);
                }
            }
            return Some(i);
        }
        i = i + 1;
    }
    None
}

proof fn lemma_remove_path(before: Seq<String>, i: int)
    requires
        0 <= i < before.len(),
        no_duplicate_paths(before),
    ensures
        no_duplicate_paths(before.remove(i)),
        path_set(before).contains(before[i]@),
        path_set(before.remove(i)) == path_set(before).remove(before[i]@),
{
    let after = before.remove(i);
    let q = before[i]@;
    assert forall|x: int, y: int| 0 <= x < y < after.len() implies (#[trigger] after[x])@ != (
    #[trigger] after[y])@ by {
        let bx = if x < i { x } else { x + 1 };
        let yb = if y < i { y } else { y + 1 };
        assert(after[x] == before[bx]);
        assert(after[y] == before[yb]);
    }
    assert(before[i]@ == q);
    assert forall|p: Seq<char>| path_set(after).contains(p) implies path_set(before).remove(
        q,
    ).contains(p) by {
        let k = choose|k: int| 0 <= k < after.len() && (#[trigger] after[k])@ == p;
        let bk = if k < i { k } else { k + 1 };
        assert(after[k] == before[bk]);
        assert(bk != i);
    }
    assert forall|p: Seq<char>| path_set(before).remove(q).contains(p) implies path_set(
        after,
    ).contains(p) by {
        let k = choose|k: int| 0 <= k < before.len() && (#[trigger] before[k])@ == p;
        assert(k != i);
        let ak = if k < i { k } else { k - 1 };
        assert(after[ak] == before[k]);
    }
    assert(path_set(after) =~= path_set(before).remove(q));
}

proof fn lemma_push_path(before: Seq<String>, s: String)
    requires
        no_duplicate_paths(before),
        forall|j: int| 0 <= j < before.len() ==> (#[trigger] before[j])@ != s@,
    ensures
        no_duplicate_paths(before.push(s)),
        !path_set(before).contains(s@),
        path_set(before.push(s)) == path_set(before).insert(s@),
{
    let after = before.push(s);
    assert forall|x: int, y: int| 0 <= x < y < after.len() implies (#[trigger] after[x])@ != (
    #[trigger] after[y])@ by {
        assert(after[x] == before[x]);
        if y < before.len() {
            assert(after[y] == before[y]);
        }
    }
    assert forall|p: Seq<char>| path_set(after).contains(p) implies path_set(before).insert(
        s@,
    ).contains(p) by {
        let k = choose|k: int| 0 <= k < after.len() && (#[trigger] after[k])@ == p;
        if k < before.len() {
            assert(after[k] == before[k]);
        }
    }
    assert forall|p: Seq<char>| path_set(before).insert(s@).contains(p) implies path_set(
        after,
    ).contains(p) by {
        if p == s@ {
            assert(after[before.len() as int]@ == p);
        } else {
            let k = choose|k: int| 0 <= k < before.len() && (#[trigger] before[k])@ == p;
            assert(after[k] == before[k]);
        }
    }
    assert(path_set(after) =~= path_set(before).insert(s@));
}


// ───── the document view of a JSON value ─────

/// A parsed JSON value. Numbers keep the text they are printed with; object
/// entries keep their order.
pub enum JsonValue {
    Null,
    Bool(bool),
    Number(String),
    Str(String),
    Array(Vec<JsonValue>),
    Object(Vec<(String, JsonValue)>),
}


/// A span as its text, its style without the link, and the link's target.
pub type SpanV = (Seq<char>, Style, Option<Seq<char>>);

pub open spec fn span_v(sp: StyledSpan) -> SpanV {
    (
        sp.text@,
        Style { link_url: None, ..sp.style },
        match sp.style.link_url {
            Some(u) => Some(u@),
            None => None,
        },
    )
}

pub open spec fn spans_v(spans: Seq<StyledSpan>) -> Seq<SpanV> {
    spans.map_values(|sp: StyledSpan| span_v(sp))
}

/// What a list of rendered lines shows.
pub open spec fn lines_v(lines: Seq<Line>) -> Seq<Seq<SpanV>> {
    lines.map_values(|l: Line| spans_v(l.spans@))
}

pub open spec fn plain(t: Seq<char>, st: Style) -> SpanV {
    (t, st, None)
}

pub open spec fn tinted(c: Color) -> Style {
    Style::fg_spec(c)
}

pub open spec fn faint(c: Color) -> Style {
    Style { dim: true, ..Style::fg_spec(c) }
}

pub open spec fn strong(c: Color) -> Style {
    Style { bold: true, ..Style::fg_spec(c) }
}

pub open spec fn repeated(c: char, n: nat) -> Seq<char> {
    Seq::new(n, |i: int| c)
}

/// Two spaces per nesting level.
pub open spec fn indent(depth: nat) -> Seq<char> {
    repeated(' ', 2 * depth)
}

pub open spec fn quoted(s: Seq<char>) -> Seq<char> {
    seq!['"'] + s + seq!['"']
}

/// Columns that unicode-width gives a text that is not all narrow (see
/// [`narrow_text`]).
pub uninterp spec fn display_width(s: Seq<char>) -> nat;

/// Every char is printable ASCII, from the space to the tilde, or the
/// ellipsis `…`.
pub open spec fn narrow_text(s: Seq<char>) -> bool {
    forall|i: int| 0 <= i < s.len() ==> (' ' <= #[trigger] s[i] && s[i] <= '~') || s[i] == '…'
}

/// Columns that unicode-width gives a text in a terminal: one per char for
/// narrow text, [`display_width`] otherwise.
pub open spec fn text_width(s: Seq<char>) -> nat {
    if narrow_text(s) {
        s.len()
    } else {
        display_width(s)
    }
}

/// unicode-width's `UnicodeWidthStr::width`: the columns `s` takes in a
/// terminal. Printable ASCII takes one column a char (each char up to U+00A0
/// other than a `\r` before a `\n` counts one), and so does the ellipsis,
/// an East Asian ambiguous char that the crate counts as narrow; the rest
/// is named [`display_width`].
#[verifier::external_body]
fn str_width(s: &str) -> (w: usize)
    ensures
        w == text_width(s@),
        !narrow_text(s@) ==> w == display_width(s@),
{
    unicode_width::UnicodeWidthStr::width(s)
}

fn chars_width(v: &Vec<char>) -> (w: usize)
    ensures
        w == text_width(v@),
{
    str_width(string_of(v).as_str())
}

/// A scalar or an empty container: drawn on one line, never as a section.
pub open spec fn is_simple(v: JsonValue) -> bool {
    match v {
        JsonValue::Array(a) => a@.len() == 0,
        JsonValue::Object(m) => m@.len() == 0,
        _ => true,
    }
}

/// How a value is shown inline: strings quoted (web addresses also as a
/// link), numbers as written, containers abbreviated.
pub open spec fn value_span_v(v: JsonValue, th: Theme) -> SpanV {
    match v {
        JsonValue::Str(s) => if starts_with(s@, "http://"@) || starts_with(s@, "https://"@) {
            (quoted(s@), Style { underline: true, ..tinted(th.json_string) }, Some(s@))
        } else {
            plain(quoted(s@), tinted(th.json_string))
        },
        JsonValue::Number(n) => plain(n@, tinted(th.json_number)),
        JsonValue::Bool(b) => plain(if b { "true"@ } else { "false"@ }, tinted(th.json_bool)),
        JsonValue::Null => plain("null"@, faint(th.json_null)),
        JsonValue::Object(m) => plain(if m@.len() == 0 { "{}"@ } else { "{…}"@ }, tinted(th.json_bracket)),
        JsonValue::Array(a) => plain(if a@.len() == 0 { "[]"@ } else { "[…]"@ }, tinted(th.json_bracket)),
    }
}

/// An empty container: its brackets and a dim "empty".
pub open spec fn empty_mark(brackets: Seq<char>, th: Theme) -> Seq<SpanV> {
    seq![plain(brackets, tinted(th.json_bracket)), plain(" empty"@, faint(th.json_null))]
}

/// The value after a key: an empty container marked empty, anything else
/// as its inline span.
pub open spec fn value_part(v: JsonValue, th: Theme) -> Seq<SpanV> {
    match v {
        JsonValue::Object(m) => if m@.len() == 0 { empty_mark("{}"@, th) } else { seq![value_span_v(v, th)] },
        JsonValue::Array(a) => if a@.len() == 0 { empty_mark("[]"@, th) } else { seq![value_span_v(v, th)] },
        _ => seq![value_span_v(v, th)],
    }
}

/// `key: value`, the key padded to `align` columns.
pub open spec fn kv_line(key: Seq<char>, v: JsonValue, depth: nat, align: nat, th: Theme) -> Seq<SpanV> {
    let pad: nat = if align > text_width(key) { (align - text_width(key)) as nat } else { 0 };
    seq![plain(indent(depth) + key + ":"@ + repeated(' ', pad) + " "@, strong(th.json_key))] + value_part(v, th)
}

pub open spec fn heading_prefix(level: u8) -> Seq<char> {
    if level == 1 {
        "# "@
    } else if level == 2 {
        "## "@
    } else if level == 3 {
        "### "@
    } else if level == 4 {
        "#### "@
    } else if level == 5 {
        "##### "@
    } else {
        "###### "@
    }
}

pub open spec fn level_color(level: u8, th: Theme) -> Color {
    if level == 1 {
        th.h1
    } else if level == 2 {
        th.h2
    } else if level == 3 {
        th.h3
    } else if level == 4 {
        th.h4
    } else if level == 5 {
        th.h5
    } else {
        th.h6
    }
}

/// A dim note after a label, when there is one.
pub open spec fn note(ann: Seq<char>, th: Theme) -> Seq<SpanV> {
    if ann.len() == 0 {
        Seq::empty()
    } else {
        seq![plain(" "@ + ann, faint(th.json_null))]
    }
}

/// Width of the rule under a top heading.
pub open spec fn rule_width(width: nat) -> nat {
    if width < 60 { width } else { 60 }
}

/// A heading line; the first two levels are underlined with a rule.
pub open spec fn heading_lines(level: u8, text: Seq<char>, ann: Seq<char>, width: nat, th: Theme) -> Seq<Seq<SpanV>> {
    let first = seq![plain(heading_prefix(level), faint(th.json_bracket)), plain(text, strong(level_color(level, th)))]
        + note(ann, th);
    if level <= 2 {
        seq![first, seq![plain(repeated('─', rule_width(width)), tinted(th.heading_separator))]]
    } else {
        seq![first]
    }
}

/// The colour of a section label at `depth`.
pub open spec fn section_color(depth: nat, th: Theme) -> Color {
    if depth == 1 {
        th.h2
    } else if depth == 2 {
        th.h3
    } else if depth == 3 {
        th.h4
    } else if depth == 4 {
        th.h5
    } else {
        th.h6
    }
}

pub open spec fn section_label_line(key: Seq<char>, depth: nat, ann: Seq<char>, th: Theme) -> Seq<SpanV> {
    seq![plain(indent(depth) + key + ":"@, strong(section_color(depth, th)))] + note(ann, th)
}

pub open spec fn index_text(depth: nat, index: nat) -> Seq<char> {
    indent(depth) + "["@ + decimal(index) + "]"@
}

/// `(N keys)` or `(N items)`.
pub open spec fn count_note(n: nat, what: Seq<char>) -> Seq<char> {
    "("@ + decimal(n) + " "@ + what + ")"@
}

/// The lines pushed so far, then `extra`.
pub open spec fn appended(old: Seq<Line>, new: Seq<Line>, extra: Seq<Seq<SpanV>>) -> bool {
    lines_v(new) == lines_v(old) + extra
}

fn styled(text: &Vec<char>, st: Style) -> (sp: StyledSpan)
    requires
        st.link_url is None,
    ensures
        span_v(sp) == plain(text@, st),
{
    let sp = StyledSpan { text: string_of(text), style: st };
    proof {
        assert(Style { link_url: None, ..sp.style } == st);
    }
    sp
}

fn styled_str(text: &str, st: Style) -> (sp: StyledSpan)
    requires
        st.link_url is None,
    ensures
        span_v(sp) == plain(text@, st),
{
    styled(&chars_of(text), st)
}

fn tinted_style(c: Color) -> (st: Style)
    ensures
        st == tinted(c),
{
    Style::fg(c)
}

fn faint_style(c: Color) -> (st: Style)
    ensures
        st == faint(c),
{
    let mut st = Style::fg(c);
    st.dim = true;
    st
}

fn strong_style(c: Color) -> (st: Style)
    ensures
        st == strong(c),
{
    let mut st = Style::fg(c);
    st.bold = true;
    st
}

fn push_span(spans: &mut Vec<StyledSpan>, sp: StyledSpan)
    ensures
        spans_v(final(spans)@) == spans_v(old(spans)@).push(span_v(sp)),
{
    spans.push(sp);
    proof {
        assert(spans_v(final(spans)@) =~= spans_v(old(spans)@).push(span_v(sp)));
    }
}

fn push_repeated(out: &mut Vec<char>, c: char, n: usize)
    ensures
        final(out)@ == old(out)@ + repeated(c, n as nat),
{
    let mut i: usize = 0;
    while i < n
        invariant
            i <= n,
            out@ == old(out)@ + repeated(c, i as nat),
        decreases n - i,
    {
        out.push(c);
        i = i + 1;
        proof {
            assert(out@ =~= old(out)@ + repeated(c, i as nat));
        }
    }
}

fn push_indent(out: &mut Vec<char>, depth: usize)
    ensures
        final(out)@ == old(out)@ + indent(depth as nat),
{
    let mut i: usize = 0;
    while i < depth
        invariant
            i <= depth,
            out@ == old(out)@ + repeated(' ', 2 * i as nat),
        decreases depth - i,
    {
        out.push(' ');
        out.push(' ');
        i = i + 1;
        proof {
            assert(out@ =~= old(out)@ + repeated(' ', 2 * i as nat));
        }
    }
}

/// Whether `v` is a scalar or an empty container.
pub fn is_primitive_or_empty(v: &JsonValue) -> (b: bool)
    ensures
        b == is_simple(*v),
{
    match v {
        JsonValue::Array(a) => a.len() == 0,
        JsonValue::Object(m) => m.len() == 0,
        _ => true,
    }
}

fn value_span(v: &JsonValue, th: &Theme) -> (sp: StyledSpan)
    ensures
        span_v(sp) == value_span_v(*v, *th),
{
    match v {
        JsonValue::Str(s) => {
            let sv = chars_of(s.as_str());
            let mut t: Vec<char> = Vec::new();
            t.push('"');
            push_all(&mut t, &sv);
            t.push('"');
            proof {
                assert(t@ =~= quoted(s@));
            }
            if has_prefix(&sv, "http://") || has_prefix(&sv, "https://") {
                let mut st = Style::fg(th.json_string);
                st.underline = true;
                st.link_url = Some(s.clone());
                let sp = StyledSpan { text: string_of(&t), style: st };
                proof {
                    assert(Style { link_url: None, ..sp.style } == Style { underline: true, ..tinted(th.json_string) });
                }
                sp
            } else {
                styled(&t, tinted_style(th.json_string))
            }
        },
        JsonValue::Number(n) => styled_str(n.as_str(), tinted_style(th.json_number)),
        JsonValue::Bool(b) => styled_str(if *b { "true" } else { "false" }, tinted_style(th.json_bool)),
        JsonValue::Null => styled_str("null", faint_style(th.json_null)),
        JsonValue::Object(m) => styled_str(if m.len() == 0 { "{}" } else { "{…}" }, tinted_style(th.json_bracket)),
        JsonValue::Array(a) => styled_str(if a.len() == 0 { "[]" } else { "[…]" }, tinted_style(th.json_bracket)),
    }
}

fn push_empty_mark(spans: &mut Vec<StyledSpan>, brackets: &str, th: &Theme)
    ensures
        spans_v(final(spans)@) == spans_v(old(spans)@) + empty_mark(brackets@, *th),
{
    push_span(spans, styled_str(brackets, tinted_style(th.json_bracket)));
    push_span(spans, styled_str(" empty", faint_style(th.json_null)));
    proof {
        assert(spans_v(final(spans)@) =~= spans_v(old(spans)@) + empty_mark(brackets@, *th));
    }
}

fn push_note(spans: &mut Vec<StyledSpan>, ann: &str, th: &Theme)
    ensures
        spans_v(final(spans)@) == spans_v(old(spans)@) + note(ann@, *th),
{
    let av = chars_of(ann);
    if av.len() > 0 {
        let mut t: Vec<char> = Vec::new();
        t.push(' ');
        push_all(&mut t, &av);
        proof {
            assert(t@ =~= " "@ + ann@) by {
                reveal_strlit(" ");
            }
        }
        push_span(spans, styled(&t, faint_style(th.json_null)));
    }
    proof {
        assert(spans_v(final(spans)@) =~= spans_v(old(spans)@) + note(ann@, *th));
    }
}

fn count_note_text(n: usize, what: &str) -> (s: String)
    ensures
        s@ == count_note(n as nat, what@),
{
    let mut t: Vec<char> = Vec::new();
    push_str(&mut t, "(");
    push_all(&mut t, &decimal_chars(n));
    push_str(&mut t, " ");
    push_str(&mut t, what);
    push_str(&mut t, ")");
    proof {
        assert(t@ =~= count_note(n as nat, what@));
    }
    string_of(&t)
}

// ───── the document, as the spec of the renderer ─────

pub open spec fn unstyled() -> Style {
    Style {
        fg: None,
        bg: None,
        bold: false,
        italic: false,
        underline: false,
        strikethrough: false,
        dim: false,
        link_url: None,
    }
}

/// Number of children of a container.
pub open spec fn kids(v: JsonValue) -> int {
    match v {
        JsonValue::Array(a) => a@.len() as int,
        JsonValue::Object(m) => m@.len() as int,
        _ => 0,
    }
}

pub open spec fn empty_container_line(depth: nat, brackets: Seq<char>, th: Theme) -> Seq<SpanV> {
    seq![plain(indent(depth) + brackets, tinted(th.json_bracket)), plain(" empty"@, faint(th.json_null))]
}

pub open spec fn indented_value_line(v: JsonValue, depth: nat, th: Theme) -> Seq<SpanV> {
    seq![plain(indent(depth), unstyled()), value_span_v(v, th)]
}

pub open spec fn bullet_line(v: JsonValue, depth: nat, th: Theme) -> Seq<SpanV> {
    seq![plain(indent(depth) + "• "@, faint(th.json_bracket)), value_span_v(v, th)]
}

pub open spec fn indexed_value_line(index: nat, v: JsonValue, depth: nat, th: Theme) -> Seq<SpanV> {
    seq![plain(index_text(depth, index) + " "@, tinted(th.json_bracket)), value_span_v(v, th)]
}

/// Widest key, in columns, among the simple entries of `es[..n]`.
pub open spec fn simple_key_width(es: Seq<(String, JsonValue)>, n: int) -> nat
    decreases n,
{
    if n <= 0 {
        0
    } else {
        let w = simple_key_width(es, n - 1);
        if is_simple(es[n - 1].1) && text_width(es[n - 1].0@) > w {
            text_width(es[n - 1].0@)
        } else {
            w
        }
    }
}

/// The column the values of simple entries line up at: the widest simple
/// key, at most 24 columns.
pub open spec fn align_of(es: Seq<(String, JsonValue)>) -> nat {
    let w = simple_key_width(es, es.len() as int);
    if w < 24 { w } else { 24 }
}

pub open spec fn has_simple(es: Seq<(String, JsonValue)>) -> bool {
    exists|i: int| 0 <= i < es.len() && is_simple(#[trigger] es[i].1)
}

pub open spec fn has_section(es: Seq<(String, JsonValue)>) -> bool {
    exists|i: int| 0 <= i < es.len() && !is_simple(#[trigger] es[i].1)
}

/// `key: value` lines for the simple entries of `es[i..]`.
pub open spec fn simple_lines(es: Seq<(String, JsonValue)>, i: int, depth: nat, align: nat, th: Theme) -> Seq<Seq<SpanV>>
    decreases es.len() - i,
{
    if i < 0 || i >= es.len() {
        Seq::empty()
    } else {
        (if is_simple(es[i].1) {
            seq![kv_line(es[i].0@, es[i].1, depth, align, th)]
        } else {
            Seq::empty()
        }) + simple_lines(es, i + 1, depth, align, th)
    }
}

/// Bullet lines for the items `items[i..]`.
pub open spec fn bullet_lines(items: Seq<JsonValue>, i: int, depth: nat, th: Theme) -> Seq<Seq<SpanV>>
    decreases items.len() - i,
{
    if i < 0 || i >= items.len() {
        Seq::empty()
    } else {
        seq![bullet_line(items[i], depth, th)] + bullet_lines(items, i + 1, depth, th)
    }
}

pub open spec fn all_simple(items: Seq<JsonValue>) -> bool {
    forall|i: int| 0 <= i < items.len() ==> is_simple(#[trigger] items[i])
}

/// A value in a section of its own: an object's entries or an array's
/// items; a scalar on its own line.
pub open spec fn value_lines(v: JsonValue, depth: nat, width: nat, th: Theme) -> Seq<Seq<SpanV>>
    decreases v, kids(v) + 2,
{
    match v {
        JsonValue::Object(_) => object_lines(v, depth, width, th),
        JsonValue::Array(_) => array_lines(v, depth, width, th),
        _ => seq![indented_value_line(v, depth, th)],
    }
}

/// An object: its simple entries as aligned `key: value` lines, then each
/// nested container as a labelled section, blank lines between.
pub open spec fn object_lines(v: JsonValue, depth: nat, width: nat, th: Theme) -> Seq<Seq<SpanV>>
    decreases v, kids(v) + 1,
{
    match v {
        JsonValue::Object(m) => if m@.len() == 0 {
            seq![empty_container_line(depth, "{}"@, th)]
        } else {
            simple_lines(m@, 0, depth, align_of(m@), th) + sections_lines(v, 0, depth, has_simple(m@), width, th)
        },
        _ => Seq::empty(),
    }
}

/// The sections of object `v` from entry `i` on; `sep` when a blank line
/// goes before the next one.
pub open spec fn sections_lines(v: JsonValue, i: int, depth: nat, sep: bool, width: nat, th: Theme) -> Seq<Seq<SpanV>>
    decreases v, kids(v) - i,
{
    match v {
        JsonValue::Object(m) => if i < 0 || i >= m@.len() {
            Seq::empty()
        } else if is_simple(m@[i].1) {
            sections_lines(v, i + 1, depth, sep, width, th)
        } else {
            (if sep { seq![Seq::<SpanV>::empty()] } else { Seq::empty() })
                + section_lines(m@[i].0@, m@[i].1, depth, width, th)
                + sections_lines(v, i + 1, depth, true, width, th)
        },
        _ => Seq::empty(),
    }
}

/// A labelled section: the key with the container's size, then its content
/// one level deeper.
pub open spec fn section_lines(key: Seq<char>, c: JsonValue, depth: nat, width: nat, th: Theme) -> Seq<Seq<SpanV>>
    decreases c, kids(c) + 3,
{
    match c {
        JsonValue::Object(m) => seq![section_label_line(key, depth, count_note(m@.len(), "keys"@), th)]
            + object_lines(c, deeper(depth), width, th),
        JsonValue::Array(a) => seq![section_label_line(key, depth, count_note(a@.len(), "items"@), th)]
            + array_lines(c, deeper(depth), width, th),
        _ => Seq::empty(),
    }
}

/// An array: a table when its items are alike objects, bullets when they
/// are all simple, and indexed items otherwise.
pub open spec fn array_lines(v: JsonValue, depth: nat, width: nat, th: Theme) -> Seq<Seq<SpanV>>
    decreases v, kids(v) + 1,
{
    match v {
        JsonValue::Array(a) => if a@.len() == 0 {
            seq![empty_container_line(depth, "[]"@, th)]
        } else if table_shaped(a@) {
            table_lines(a@, depth, table_room(depth, width), th)
        } else if all_simple(a@) {
            bullet_lines(a@, 0, depth, th)
        } else {
            items_lines(v, 0, false, depth, width, th)
        },
        _ => Seq::empty(),
    }
}

/// The items of array `v` from `i` on; `prev` when the item before was a
/// non-empty container. Blank lines go around non-empty containers.
pub open spec fn items_lines(v: JsonValue, i: int, prev: bool, depth: nat, width: nat, th: Theme) -> Seq<Seq<SpanV>>
    decreases v, kids(v) - i,
{
    match v {
        JsonValue::Array(a) => if i < 0 || i >= a@.len() {
            Seq::empty()
        } else {
            let complex = !is_simple(a@[i]);
            (if i > 0 && (complex || prev) { seq![Seq::<SpanV>::empty()] } else { Seq::empty() })
                + item_lines(i as nat, a@[i], depth, width, th)
                + items_lines(v, i + 1, complex, depth, width, th)
        },
        _ => Seq::empty(),
    }
}

/// One item of a mixed array: `[i]` over a non-empty object, `[i] (N
/// items)` over a non-empty array, `[i] value` otherwise.
pub open spec fn item_lines(index: nat, c: JsonValue, depth: nat, width: nat, th: Theme) -> Seq<Seq<SpanV>>
    decreases c, kids(c) + 3,
{
    match c {
        JsonValue::Object(m) => if m@.len() > 0 {
            seq![seq![plain(index_text(depth, index), tinted(th.json_bracket))]] + object_lines(c, deeper(depth), width, th)
        } else {
            seq![indexed_value_line(index, c, depth, th)]
        },
        JsonValue::Array(a) => if a@.len() > 0 {
            seq![seq![
                plain(index_text(depth, index) + " "@, tinted(th.json_bracket)),
                plain(count_note(a@.len(), "items"@), faint(th.json_null)),
            ]] + array_lines(c, deeper(depth), width, th)
        } else {
            seq![indexed_value_line(index, c, depth, th)]
        },
        _ => seq![indexed_value_line(index, c, depth, th)],
    }
}

/// The note after a top-level section heading.
pub open spec fn size_note(v: JsonValue) -> Seq<char> {
    match v {
        JsonValue::Object(m) => count_note(m@.len(), "keys"@),
        JsonValue::Array(a) => count_note(a@.len(), "items"@),
        _ => Seq::empty(),
    }
}

/// The top-level sections of object `v` from entry `i` on: a heading, a
/// blank line and the content each, blank lines between.
pub open spec fn root_sections(v: JsonValue, i: int, sep: bool, width: nat, th: Theme) -> Seq<Seq<SpanV>>
    decreases kids(v) - i,
{
    match v {
        JsonValue::Object(m) => if i < 0 || i >= m@.len() {
            Seq::empty()
        } else if is_simple(m@[i].1) {
            root_sections(v, i + 1, sep, width, th)
        } else {
            (if sep { seq![Seq::<SpanV>::empty()] } else { Seq::empty() })
                + heading_lines(1, m@[i].0@, size_note(m@[i].1), width, th)
                + seq![Seq::<SpanV>::empty()]
                + value_lines(m@[i].1, 1, width, th)
                + root_sections(v, i + 1, true, width, th)
        },
        _ => Seq::empty(),
    }
}

/// The whole document: the simple top-level entries, then a section per
/// nested one; an array under a `root` heading; a scalar under `value`.
pub open spec fn document_lines(v: JsonValue, width: nat, th: Theme) -> Seq<Seq<SpanV>> {
    match v {
        JsonValue::Object(m) => simple_lines(m@, 0, 1, align_of(m@), th)
            + (if has_simple(m@) && has_section(m@) { seq![Seq::<SpanV>::empty()] } else { Seq::empty() })
            + root_sections(v, 0, false, width, th),
        JsonValue::Array(a) => heading_lines(
            1,
            "root"@,
            if a@.len() == 0 { Seq::empty() } else { count_note(a@.len(), "items"@) },
            width,
            th,
        ) + seq![Seq::<SpanV>::empty()] + array_lines(v, 1, width, th),
        _ => heading_lines(1, "value"@, Seq::empty(), width, th) + seq![Seq::<SpanV>::empty()]
            + seq![indented_value_line(v, 1, th)],
    }
}

// ───── tables ─────

pub open spec fn is_container(v: JsonValue) -> bool {
    v is Object || v is Array
}

pub open spec fn obj_entries(v: JsonValue) -> Seq<(String, JsonValue)> {
    match v {
        JsonValue::Object(m) => m@,
        _ => Seq::empty(),
    }
}

/// The keys of an object, in order.
pub open spec fn keys_of(v: JsonValue) -> Seq<Seq<char>> {
    obj_entries(v).map_values(|e: (String, JsonValue)| e.0@)
}

pub open spec fn texts_v(v: Seq<String>) -> Seq<Seq<char>> {
    v.map_values(|h: String| h@)
}

/// Every key of every object among `items`, in order.
pub open spec fn all_keys(items: Seq<JsonValue>) -> Seq<Seq<char>>
    decreases items.len(),
{
    if items.len() == 0 {
        Seq::empty()
    } else {
        all_keys(items.drop_last()) + keys_of(items.last())
    }
}

/// `s` with each text kept at its first appearance only.
pub open spec fn first_seen(s: Seq<Seq<char>>) -> Seq<Seq<char>>
    decreases s.len(),
{
    if s.len() == 0 {
        Seq::empty()
    } else {
        let p = first_seen(s.drop_last());
        if p.contains(s.last()) { p } else { p.push(s.last()) }
    }
}

/// The table's columns: every key, in the order keys first appear.
pub open spec fn table_headers(items: Seq<JsonValue>) -> Seq<Seq<char>> {
    first_seen(all_keys(items))
}

/// At least two items, all objects of scalars, sharing their keys: each
/// object has at least half as many entries as there are distinct keys.
pub open spec fn table_shaped(items: Seq<JsonValue>) -> bool {
    &&& items.len() >= 2
    &&& forall|i: int| 0 <= i < items.len() ==> (#[trigger] items[i]) is Object
    &&& forall|i: int, j: int|
        0 <= i < items.len() && 0 <= j < obj_entries(items[i]).len() ==> !is_container(
            #[trigger] obj_entries(items[i])[j].1,
        )
    &&& table_headers(items).len() > 0
    &&& forall|i: int| 0 <= i < items.len() ==> 2 * obj_entries(#[trigger] items[i]).len() >= table_headers(items).len()
}

/// The value of the first entry with key `k`.
pub open spec fn lookup(es: Seq<(String, JsonValue)>, k: Seq<char>) -> Option<JsonValue>
    decreases es.len(),
{
    if es.len() == 0 {
        None
    } else if es[0].0@ == k {
        Some(es[0].1)
    } else {
        lookup(es.drop_first(), k)
    }
}

/// A string longer than 40 bytes is shown by its first 39 bytes; that cut
/// must fall between characters.
pub open spec fn cuts_cleanly(s: Seq<char>) -> bool {
    utf8_len(s) <= 40 || exists|k: int| 0 <= k <= s.len() && utf8_len(#[trigger] s.subrange(0, k)) == 39
}

/// Number of characters in the first 39 bytes of `s`.
pub open spec fn cut_point(s: Seq<char>) -> int {
    choose|k: int| 0 <= k <= s.len() && utf8_len(#[trigger] s.subrange(0, k)) == 39
}

/// How a value reads in a table cell: long strings cut with an ellipsis.
pub open spec fn short_text(v: JsonValue) -> Seq<char> {
    match v {
        JsonValue::Str(s) => if utf8_len(s@) > 40 {
            s@.subrange(0, cut_point(s@)) + "…"@
        } else {
            s@
        },
        JsonValue::Number(n) => n@,
        JsonValue::Bool(b) => if b { "true"@ } else { "false"@ },
        JsonValue::Null => "null"@,
        JsonValue::Object(_) => "{…}"@,
        JsonValue::Array(_) => "[…]"@,
    }
}

pub open spec fn cell_text(obj: JsonValue, h: Seq<char>) -> Seq<char> {
    match lookup(obj_entries(obj), h) {
        Some(x) => short_text(x),
        None => Seq::empty(),
    }
}

/// Columns of the widest text in column `h`: its header, its cells, and
/// at least 3.
pub open spec fn natural_width(items: Seq<JsonValue>, h: Seq<char>, n: int) -> nat
    decreases n,
{
    if n <= 0 {
        if text_width(h) > 3 { text_width(h) } else { 3 }
    } else {
        let w = natural_width(items, h, n - 1);
        let c = text_width(cell_text(items[n - 1], h));
        if c > w { c } else { w }
    }
}

pub open spec fn sum_of(ws: Seq<nat>) -> nat
    decreases ws.len(),
{
    if ws.len() == 0 { 0 } else { sum_of(ws.drop_last()) + ws.last() }
}

/// The columns a table at `depth` has in a document `width` columns wide.
pub open spec fn table_room(depth: nat, width: nat) -> nat {
    let iw = text_width(indent(depth));
    if width > iw { (width - iw) as nat } else { 0 }
}

/// Column widths: the natural ones, scaled down to fit `available`
/// columns (but never under 3) when they do not fit and there is room.
pub open spec fn column_widths(items: Seq<JsonValue>, available: nat) -> Seq<nat> {
    let hs = table_headers(items);
    let natural = hs.map_values(|h: Seq<char>| natural_width(items, h, items.len() as int));
    let n = hs.len();
    let seps: nat = if n > 1 { ((n - 1) * 3) as nat } else { 0 };
    let total = sum_of(natural);
    if total + seps + 4 > available && available > 4 + seps + n {
        let usable = available - 4 - seps;
        natural.map_values(|w: nat| {
            let s = w * usable / total as int;
            if s > 3 { s as nat } else { 3nat }
        })
    } else {
        natural
    }
}

pub open spec fn rules(ws: Seq<nat>, mid: Seq<char>) -> Seq<char>
    decreases ws.len(),
{
    if ws.len() == 0 {
        Seq::empty()
    } else if ws.len() == 1 {
        repeated('─', ws[0])
    } else {
        rules(ws.drop_last(), mid) + mid + repeated('─', ws.last())
    }
}

pub open spec fn border_line(depth: nat, ws: Seq<nat>, left: Seq<char>, mid: Seq<char>, right: Seq<char>, th: Theme) -> Seq<SpanV> {
    seq![plain(indent(depth) + left + rules(ws, mid) + right, tinted(th.table_border))]
}

/// Columns of one character.
pub open spec fn char_width(c: char) -> nat {
    text_width(seq![c])
}

/// How many leading characters of `s[i..]` fit in `limit` columns when
/// `acc` are used; the count stops at the first one that does not fit.
pub open spec fn fit_end(s: Seq<char>, limit: int, i: int, acc: int) -> int
    decreases s.len() - i,
{
    if i < 0 || i >= s.len() {
        i
    } else if acc + char_width(s[i]) > limit {
        i
    } else {
        fit_end(s, limit, i + 1, acc + char_width(s[i]))
    }
}

/// `s` padded with spaces to `width` columns, or cut with an ellipsis when
/// wider.
pub open spec fn padded(s: Seq<char>, width: nat) -> Seq<char> {
    if text_width(s) > width {
        let limit: int = if width >= 1 { width - 1 } else { 0 };
        let t = s.subrange(0, fit_end(s, limit, 0, 0)).push('…');
        t + repeated(' ', if width > text_width(t) { (width - text_width(t)) as nat } else { 0 })
    } else {
        s + repeated(' ', (width - text_width(s)) as nat)
    }
}

pub open spec fn is_digit(c: char) -> bool {
    '0' <= c <= '9'
}

/// End of the run of digits in `s` that starts at `i`.
pub open spec fn digits_end(s: Seq<char>, i: int) -> int
    decreases s.len() - i,
{
    if i < 0 || i >= s.len() || !is_digit(s[i]) {
        i
    } else {
        digits_end(s, i + 1)
    }
}

/// `e` or `E`, an optional sign, and at least one digit, to the end.
pub open spec fn exponent_text(s: Seq<char>) -> bool {
    &&& s.len() >= 2
    &&& (s[0] == 'e' || s[0] == 'E')
    &&& {
        let d = if s[1] == '+' || s[1] == '-' { 2int } else { 1int };
        d < s.len() && digits_end(s, d) == s.len()
    }
}

/// Digits, at most one point, at least one digit, then an optional
/// exponent: the number part of a float literal.
pub open spec fn number_text(s: Seq<char>) -> bool {
    let d1 = digits_end(s, 0);
    if d1 < s.len() && s[d1] == '.' {
        let d2 = digits_end(s, d1 + 1);
        (d1 > 0 || d2 > d1 + 1) && (d2 == s.len() || exponent_text(s.subrange(d2, s.len() as int)))
    } else {
        d1 > 0 && (d1 == s.len() || exponent_text(s.subrange(d1, s.len() as int)))
    }
}

/// Text that std's `f64::from_str` accepts: an optional sign, then `inf`,
/// `infinity` or `nan` in any case, or a number.
pub open spec fn float_text(s: Seq<char>) -> bool {
    let b = if s.len() > 0 && (s[0] == '+' || s[0] == '-') { s.drop_first() } else { s };
    eq_ignore_ascii_case(b, "inf"@) || eq_ignore_ascii_case(b, "infinity"@) || eq_ignore_ascii_case(b, "nan"@)
        || number_text(b)
}

/// The colour of a cell by what its text looks like.
pub open spec fn cell_color_of(t: Seq<char>, th: Theme) -> Color {
    if t == "null"@ {
        th.json_null
    } else if t == "true"@ || t == "false"@ {
        th.json_bool
    } else if float_text(t) && t.len() > 0 {
        th.json_number
    } else {
        th.json_string
    }
}

/// The cells of a row from column `ci` on, with separators between.
pub open spec fn cell_spans(texts: Seq<Seq<char>>, ws: Seq<nat>, styles: Seq<Style>, ci: int, th: Theme) -> Seq<SpanV>
    decreases texts.len() - ci,
{
    if ci < 0 || ci >= texts.len() {
        Seq::empty()
    } else {
        seq![plain(padded(texts[ci], ws[ci]), styles[ci])]
            + (if ci < texts.len() - 1 { seq![plain(" │ "@, tinted(th.table_border))] } else { Seq::empty() })
            + cell_spans(texts, ws, styles, ci + 1, th)
    }
}

pub open spec fn row_line(depth: nat, texts: Seq<Seq<char>>, ws: Seq<nat>, styles: Seq<Style>, th: Theme) -> Seq<SpanV> {
    seq![plain(indent(depth) + "│ "@, tinted(th.table_border))] + cell_spans(texts, ws, styles, 0, th)
        + seq![plain(" │"@, tinted(th.table_border))]
}

pub open spec fn row_texts(obj: JsonValue, hs: Seq<Seq<char>>) -> Seq<Seq<char>> {
    hs.map_values(|h: Seq<char>| cell_text(obj, h))
}

pub open spec fn row_styles(texts: Seq<Seq<char>>, th: Theme) -> Seq<Style> {
    texts.map_values(|t: Seq<char>| tinted(cell_color_of(t, th)))
}

/// The data rows for `items[r..]`.
pub open spec fn data_rows(items: Seq<JsonValue>, r: int, depth: nat, ws: Seq<nat>, th: Theme) -> Seq<Seq<SpanV>>
    decreases items.len() - r,
{
    if r < 0 || r >= items.len() {
        Seq::empty()
    } else {
        let texts = row_texts(items[r], table_headers(items));
        seq![row_line(depth, texts, ws, row_styles(texts, th), th)] + data_rows(items, r + 1, depth, ws, th)
    }
}

/// A table of objects: a box with a bold header row and a row per object,
/// its columns fitted to `available` columns where they can be.
pub open spec fn table_lines(items: Seq<JsonValue>, depth: nat, available: nat, th: Theme) -> Seq<Seq<SpanV>> {
    let hs = table_headers(items);
    let ws = column_widths(items, available);
    seq![
        border_line(depth, ws, "┌─"@, "─┬─"@, "─┐"@, th),
        row_line(depth, hs, ws, Seq::new(hs.len(), |i: int| strong(th.table_header)), th),
        border_line(depth, ws, "├─"@, "─┼─"@, "─┤"@, th),
    ] + data_rows(items, 0, depth, ws, th) + seq![border_line(depth, ws, "└─"@, "─┴─"@, "─┘"@, th)]
}

// ───── even tables ─────

/// Chars of a line: its spans' texts end to end.
pub open spec fn line_chars(l: Seq<SpanV>) -> int
    decreases l.len(),
{
    if l.len() == 0 {
        0
    } else {
        line_chars(l.drop_last()) + l.last().0.len()
    }
}

proof fn lemma_line_chars_concat(a: Seq<SpanV>, b: Seq<SpanV>)
    ensures
        line_chars(a + b) == line_chars(a) + line_chars(b),
    decreases b.len(),
{
    if b.len() == 0 {
        assert(a + b =~= a);
    } else {
        lemma_line_chars_concat(a, b.drop_last());
        assert((a + b).drop_last() =~= a + b.drop_last());
        assert((a + b).last() == b.last());
    }
}

proof fn lemma_narrow_char(c: char)
    requires
        (' ' <= c && c <= '~') || c == '…',
    ensures
        char_width(c) == 1,
{
    let t = seq![c];
    assert(t[0] == c);
    assert(narrow_text(t));
}

proof fn lemma_fit_end_narrow(s: Seq<char>, limit: int, i: int)
    requires
        narrow_text(s),
        0 <= i <= limit,
        i <= s.len(),
    ensures
        fit_end(s, limit, i, i) == if s.len() < limit { s.len() as int } else { limit },
    decreases s.len() - i,
{
    if i < s.len() {
        lemma_narrow_char(s[i]);
        if i + 1 <= limit {
            lemma_fit_end_narrow(s, limit, i + 1);
        }
    }
}

proof fn lemma_padded_len(s: Seq<char>, w: nat)
    requires
        narrow_text(s),
        w >= 1,
    ensures
        padded(s, w).len() == w,
{
    if text_width(s) > w {
        lemma_fit_end_narrow(s, w - 1, 0);
        let t = s.subrange(0, fit_end(s, w - 1, 0, 0)).push('…');
        assert(narrow_text(t)) by {
            assert forall|i: int| 0 <= i < t.len() implies (' ' <= #[trigger] t[i] && t[i] <= '~') || t[i] == '…' by {
                if i < t.len() - 1 {
                    assert(t[i] == s[i]);
                }
            }
        }
    }
}

proof fn lemma_sum_front(q: Seq<nat>)
    requires
        q.len() > 0,
    ensures
        sum_of(q) == q[0] + sum_of(q.drop_first()),
    decreases q.len(),
{
    if q.len() > 1 {
        lemma_sum_front(q.drop_last());
        assert(q.drop_last().drop_first() =~= q.drop_first().drop_last());
        assert(q.drop_first().last() == q.last());
        assert(q.drop_last()[0] == q[0]);
        assert(sum_of(q) == sum_of(q.drop_last()) + q.last());
        assert(sum_of(q.drop_first()) == sum_of(q.drop_first().drop_last()) + q.drop_first().last());
    } else {
        assert(q.drop_first().len() == 0);
        assert(q.drop_last().len() == 0);
        assert(sum_of(q.drop_first()) == 0);
        assert(sum_of(q.drop_last()) == 0);
        assert(q.last() == q[0]);
    }
}

proof fn lemma_rules_len(ws: Seq<nat>, mid: Seq<char>)
    requires
        ws.len() >= 1,
    ensures
        rules(ws, mid).len() == sum_of(ws) + (ws.len() - 1) * mid.len(),
    decreases ws.len(),
{
    if ws.len() > 1 {
        lemma_rules_len(ws.drop_last(), mid);
        let k = ws.len() - 1;
        assert(k * mid.len() == (k - 1) * mid.len() + mid.len()) by (nonlinear_arith);
        assert(rules(ws, mid) == rules(ws.drop_last(), mid) + mid + repeated('─', ws.last()));
        assert(sum_of(ws) == sum_of(ws.drop_last()) + ws.last());
    } else {
        assert(ws.drop_last().len() == 0);
        assert(sum_of(ws.drop_last()) == 0);
        assert(sum_of(ws) == sum_of(ws.drop_last()) + ws.last());
        assert(ws.last() == ws[0]);
    }
}

proof fn lemma_cell_spans_chars(texts: Seq<Seq<char>>, ws: Seq<nat>, styles: Seq<Style>, ci: int, th: Theme)
    requires
        texts.len() == ws.len(),
        0 <= ci < texts.len(),
        forall|k: int| 0 <= k < texts.len() ==> narrow_text(#[trigger] texts[k]),
        forall|k: int| 0 <= k < ws.len() ==> #[trigger] ws[k] >= 1,
    ensures
        line_chars(cell_spans(texts, ws, styles, ci, th)) == sum_of(ws.subrange(ci, ws.len() as int)) + 3 * (
        texts.len() - 1 - ci),
    decreases texts.len() - ci,
{
    let first = seq![plain(padded(texts[ci], ws[ci]), styles[ci])];
    let sep: Seq<SpanV> = if ci < texts.len() - 1 { seq![plain(" │ "@, tinted(th.table_border))] } else { Seq::empty() };
    let rest = cell_spans(texts, ws, styles, ci + 1, th);
    lemma_padded_len(texts[ci], ws[ci]);
    lemma_line_chars_concat(first + sep, rest);
    lemma_line_chars_concat(first, sep);
    assert(first.drop_last().len() == 0);
    assert(line_chars(first.drop_last()) == 0);
    assert(first.last() == plain(padded(texts[ci], ws[ci]), styles[ci]));
    assert(line_chars(first) == ws[ci]);
    reveal_strlit(" │ ");
    let sub = ws.subrange(ci, ws.len() as int);
    lemma_sum_front(sub);
    assert(sub.drop_first() =~= ws.subrange(ci + 1, ws.len() as int));
    if ci < texts.len() - 1 {
        assert(sep.drop_last().len() == 0);
        assert(line_chars(sep.drop_last()) == 0);
        assert(line_chars(sep) == 3);
        lemma_cell_spans_chars(texts, ws, styles, ci + 1, th);
    } else {
        assert(line_chars(sep) == 0);
        assert(rest.len() == 0);
        assert(ws.subrange(ci + 1, ws.len() as int).len() == 0);
    }
}

/// The chars of every line of a table with these column widths.
pub open spec fn table_line_chars(depth: nat, ws: Seq<nat>) -> int {
    indent(depth).len() + 4 + sum_of(ws) + 3 * (ws.len() - 1)
}

proof fn lemma_row_line_chars(depth: nat, texts: Seq<Seq<char>>, ws: Seq<nat>, styles: Seq<Style>, th: Theme)
    requires
        texts.len() == ws.len(),
        ws.len() >= 1,
        forall|k: int| 0 <= k < texts.len() ==> narrow_text(#[trigger] texts[k]),
        forall|k: int| 0 <= k < ws.len() ==> #[trigger] ws[k] >= 1,
    ensures
        line_chars(row_line(depth, texts, ws, styles, th)) == table_line_chars(depth, ws),
{
    let a = seq![plain(indent(depth) + "│ "@, tinted(th.table_border))];
    let b = cell_spans(texts, ws, styles, 0, th);
    let c = seq![plain(" │"@, tinted(th.table_border))];
    lemma_cell_spans_chars(texts, ws, styles, 0, th);
    assert(ws.subrange(0, ws.len() as int) =~= ws);
    lemma_line_chars_concat(a + b, c);
    lemma_line_chars_concat(a, b);
    reveal_strlit("│ ");
    reveal_strlit(" │");
    assert(a.drop_last().len() == 0);
    assert(c.drop_last().len() == 0);
    assert(line_chars(a.drop_last()) == 0);
    assert(line_chars(c.drop_last()) == 0);
    assert(line_chars(a) == indent(depth).len() + 2);
    assert(line_chars(c) == 2);
}

proof fn lemma_border_line_chars(depth: nat, ws: Seq<nat>, left: Seq<char>, mid: Seq<char>, right: Seq<char>, th: Theme)
    requires
        ws.len() >= 1,
        left.len() == 2,
        mid.len() == 3,
        right.len() == 2,
    ensures
        line_chars(border_line(depth, ws, left, mid, right, th)) == table_line_chars(depth, ws),
{
    lemma_rules_len(ws, mid);
    let l = border_line(depth, ws, left, mid, right, th);
    assert(l.drop_last().len() == 0);
    assert(line_chars(l.drop_last()) == 0);
    assert(l.last().0 == indent(depth) + left + rules(ws, mid) + right);
}

proof fn lemma_natural_width_ge(items: Seq<JsonValue>, h: Seq<char>, n: int)
    ensures
        natural_width(items, h, n) >= 3,
    decreases n,
{
    if n > 0 {
        lemma_natural_width_ge(items, h, n - 1);
    }
}

proof fn lemma_data_rows_chars(items: Seq<JsonValue>, r: int, depth: nat, ws: Seq<nat>, th: Theme)
    requires
        0 <= r <= items.len(),
        ws.len() == table_headers(items).len(),
        ws.len() >= 1,
        forall|k: int| 0 <= k < ws.len() ==> #[trigger] ws[k] >= 1,
        forall|q: int, k: int|
            0 <= q < items.len() && 0 <= k < table_headers(items).len() ==> narrow_text(
                #[trigger] cell_text(items[q], table_headers(items)[k]),
            ),
    ensures
        forall|k: int| 0 <= k < data_rows(items, r, depth, ws, th).len() ==> line_chars(
            #[trigger] data_rows(items, r, depth, ws, th)[k],
        ) == table_line_chars(depth, ws),
    decreases items.len() - r,
{
    if r < items.len() {
        let hs = table_headers(items);
        let texts = row_texts(items[r], hs);
        assert forall|k: int| 0 <= k < texts.len() implies narrow_text(#[trigger] texts[k]) by {
            assert(texts[k] == cell_text(items[r], hs[k]));
        }
        lemma_row_line_chars(depth, texts, ws, row_styles(texts, th), th);
        lemma_data_rows_chars(items, r + 1, depth, ws, th);
        let d = data_rows(items, r, depth, ws, th);
        assert forall|k: int| 0 <= k < d.len() implies line_chars(#[trigger] d[k]) == table_line_chars(depth, ws) by {
            if k > 0 {
                assert(d[k] == data_rows(items, r + 1, depth, ws, th)[k - 1]);
            }
        }
    }
}

/// In a table whose headers and cells are narrow text (printable ASCII and
/// ellipses), every line has as many chars: the borders and the rows line
/// up.
pub proof fn lemma_table_lines_even(items: Seq<JsonValue>, depth: nat, available: nat, th: Theme)
    requires
        table_headers(items).len() > 0,
        forall|k: int| 0 <= k < table_headers(items).len() ==> narrow_text(#[trigger] table_headers(items)[k]),
        forall|q: int, k: int|
            0 <= q < items.len() && 0 <= k < table_headers(items).len() ==> narrow_text(
                #[trigger] cell_text(items[q], table_headers(items)[k]),
            ),
    ensures
        forall|i: int, j: int|
            0 <= i < table_lines(items, depth, available, th).len() && 0 <= j < table_lines(items, depth, available, th).len()
                ==> line_chars(#[trigger] table_lines(items, depth, available, th)[i]) == line_chars(
                #[trigger] table_lines(items, depth, available, th)[j],
            ),
{
    let hs = table_headers(items);
    let ws = column_widths(items, available);
    assert forall|k: int| 0 <= k < ws.len() implies #[trigger] ws[k] >= 1 by {
        lemma_natural_width_ge(items, hs[k], items.len() as int);
    }
    let top = border_line(depth, ws, "┌─"@, "─┬─"@, "─┐"@, th);
    let head = row_line(depth, hs, ws, Seq::new(hs.len(), |i: int| strong(th.table_header)), th);
    let sep = border_line(depth, ws, "├─"@, "─┼─"@, "─┤"@, th);
    let rows = data_rows(items, 0, depth, ws, th);
    let bottom = border_line(depth, ws, "└─"@, "─┴─"@, "─┘"@, th);
    reveal_strlit("┌─");
    reveal_strlit("─┬─");
    reveal_strlit("─┐");
    reveal_strlit("├─");
    reveal_strlit("─┼─");
    reveal_strlit("─┤");
    reveal_strlit("└─");
    reveal_strlit("─┴─");
    reveal_strlit("─┘");
    lemma_border_line_chars(depth, ws, "┌─"@, "─┬─"@, "─┐"@, th);
    lemma_border_line_chars(depth, ws, "├─"@, "─┼─"@, "─┤"@, th);
    lemma_border_line_chars(depth, ws, "└─"@, "─┴─"@, "─┘"@, th);
    lemma_row_line_chars(depth, hs, ws, Seq::new(hs.len(), |i: int| strong(th.table_header)), th);
    lemma_data_rows_chars(items, 0, depth, ws, th);
    let tl = table_lines(items, depth, available, th);
    assert forall|i: int| 0 <= i < tl.len() implies line_chars(#[trigger] tl[i]) == table_line_chars(depth, ws) by {
        if i == 0 {
            assert(tl[i] == top);
        } else if i == 1 {
            assert(tl[i] == head);
        } else if i == 2 {
            assert(tl[i] == sep);
        } else if i < 3 + rows.len() {
            assert(tl[i] == rows[i - 3]);
        } else {
            assert(tl[i] == bottom);
        }
    }
}

// ───── the renderer ─────

/// One nesting level deeper (levels past the largest count as the largest).
pub open spec fn deeper(depth: nat) -> nat {
    if depth < usize::MAX { depth + 1 } else { depth }
}

/// Renders a JSON value as the lines of a document.
pub struct JsonRenderer {
    pub theme: Theme,
    pub lines: Vec<Line>,
    pub width: usize,
}

/// `new` is `old` with the lines `extra` added.
pub open spec fn grew(old: JsonRenderer, new: JsonRenderer, extra: Seq<Seq<SpanV>>) -> bool {
    &&& new.theme == old.theme
    &&& new.width == old.width
    &&& lines_v(new.lines@) == lines_v(old.lines@) + extra
}

pub proof fn lemma_grew_trans(a: JsonRenderer, b: JsonRenderer, c: JsonRenderer, x: Seq<Seq<SpanV>>, y: Seq<Seq<SpanV>>)
    requires
        grew(a, b, x),
        grew(b, c, y),
    ensures
        grew(a, c, x + y),
{
    assert(lines_v(a.lines@) + x + y =~= lines_v(a.lines@) + (x + y));
}

impl JsonRenderer {
    fn push_line(&mut self, spans: Vec<StyledSpan>)
        ensures
            grew(*old(self), *final(self), seq![spans_v(spans@)]),
    {
        let ghost sv = spans_v(spans@);
        self.lines.push(Line { spans });
        proof {
            assert(lines_v(self.lines@) =~= lines_v(old(self).lines@) + seq![sv]);
        }
    }

    fn emit_blank(&mut self)
        ensures
            grew(*old(self), *final(self), seq![Seq::<SpanV>::empty()]),
    {
        let spans: Vec<StyledSpan> = Vec::new();
        proof {
            assert(spans_v(spans@) =~= Seq::<SpanV>::empty());
        }
        self.push_line(spans);
    }

    /// `key: value` on one line, the key padded to `align` columns.
    fn emit_kv(&mut self, key: &str, value: &JsonValue, depth: usize, align: usize)
        ensures
            grew(*old(self), *final(self), seq![kv_line(key@, *value, depth as nat, align as nat, old(self).theme)]),
    {
        let th = self.theme;
        let key_w = str_width(key);
        let padding = align.saturating_sub(key_w);
        let mut t: Vec<char> = Vec::new();
        push_indent(&mut t, depth);
        push_str(&mut t, key);
        t.push(':');
        push_repeated(&mut t, ' ', padding);
        t.push(' ');
        let ghost pad: nat = if align > text_width(key@) { (align - text_width(key@)) as nat } else { 0 };
        proof {
            assert(padding == pad);
            assert(t@ =~= indent(depth as nat) + key@ + ":"@ + repeated(' ', pad) + " "@) by {
                reveal_strlit(":");
                reveal_strlit(" ");
            }
        }
        let mut spans: Vec<StyledSpan> = Vec::new();
        push_span(&mut spans, styled(&t, strong_style(th.json_key)));
        match value {
            JsonValue::Object(m) if m.len() == 0 => push_empty_mark(&mut spans, "{}", &th),
            JsonValue::Array(a) if a.len() == 0 => push_empty_mark(&mut spans, "[]", &th),
            _ => push_span(&mut spans, value_span(value, &th)),
        }
        proof {
            assert(spans_v(spans@) =~= kv_line(key@, *value, depth as nat, align as nat, th));
        }
        self.push_line(spans);
    }

    /// A heading with an optional note; the first two levels are underlined.
    fn emit_heading_with_annotation(&mut self, level: u8, text: &str, annotation: &str)
        ensures
            grew(*old(self), *final(self), heading_lines(level, text@, annotation@, old(self).width as nat, old(self).theme)),
    {
        let th = self.theme;
        let color = if level == 1 {
            th.h1
        } else if level == 2 {
            th.h2
        } else if level == 3 {
            th.h3
        } else if level == 4 {
            th.h4
        } else if level == 5 {
            th.h5
        } else {
            th.h6
        };
        let prefix = if level == 1 {
            "# "
        } else if level == 2 {
            "## "
        } else if level == 3 {
            "### "
        } else if level == 4 {
            "#### "
        } else if level == 5 {
            "##### "
        } else {
            "###### "
        };
        let mut spans: Vec<StyledSpan> = Vec::new();
        push_span(&mut spans, styled_str(prefix, faint_style(th.json_bracket)));
        push_span(&mut spans, styled_str(text, strong_style(color)));
        push_note(&mut spans, annotation, &th);
        let ghost first = spans_v(spans@);
        proof {
            assert(first =~= seq![plain(heading_prefix(level), faint(th.json_bracket)), plain(text@, strong(level_color(level, th)))]
                + note(annotation@, th));
        }
        self.push_line(spans);
        if level <= 2 {
            let ghost mid = *self;
            let sep_w = if self.width < 60 { self.width } else { 60 };
            let mut rule: Vec<char> = Vec::new();
            push_repeated(&mut rule, '─', sep_w);
            let mut sp2: Vec<StyledSpan> = Vec::new();
            push_span(&mut sp2, styled(&rule, tinted_style(th.heading_separator)));
            proof {
                assert(spans_v(sp2@) =~= seq![plain(repeated('─', rule_width(old(self).width as nat)), tinted(th.heading_separator))]);
            }
            self.push_line(sp2);
            proof {
                lemma_grew_trans(*old(self), mid, *self, seq![first], seq![spans_v(sp2@)]);
                assert(seq![first] + seq![spans_v(sp2@)] =~= heading_lines(level, text@, annotation@, old(self).width as nat, th));
            }
        } else {
            proof {
                assert(seq![first] =~= heading_lines(level, text@, annotation@, old(self).width as nat, th));
            }
        }
    }

    fn emit_heading(&mut self, level: u8, text: &str)
        ensures
            grew(*old(self), *final(self), heading_lines(level, text@, Seq::empty(), old(self).width as nat, old(self).theme)),
    {
        self.emit_heading_with_annotation(level, text, "");
        proof {
            assert(""@ =~= Seq::<char>::empty()) by {
                reveal_strlit("");
            }
        }
    }

    /// The label of a nested section: the key, bold, with an optional note.
    fn emit_section_label(&mut self, key: &str, depth: usize, annotation: &str)
        ensures
            grew(*old(self), *final(self), seq![section_label_line(key@, depth as nat, annotation@, old(self).theme)]),
    {
        let th = self.theme;
        let color = if depth == 1 {
            th.h2
        } else if depth == 2 {
            th.h3
        } else if depth == 3 {
            th.h4
        } else if depth == 4 {
            th.h5
        } else {
            th.h6
        };
        let mut t: Vec<char> = Vec::new();
        push_indent(&mut t, depth);
        push_str(&mut t, key);
        t.push(':');
        proof {
            assert(t@ =~= indent(depth as nat) + key@ + ":"@) by {
                reveal_strlit(":");
            }
        }
        let mut spans: Vec<StyledSpan> = Vec::new();
        push_span(&mut spans, styled(&t, strong_style(color)));
        push_note(&mut spans, annotation, &th);
        proof {
            assert(spans_v(spans@) =~= section_label_line(key@, depth as nat, annotation@, th));
        }
        self.push_line(spans);
    }

    /// A scalar on its own indented line.
    fn emit_indented_value(&mut self, value: &JsonValue, depth: usize)
        ensures
            grew(*old(self), *final(self), seq![indented_value_line(*value, depth as nat, old(self).theme)]),
    {
        let th = self.theme;
        let mut t: Vec<char> = Vec::new();
        push_indent(&mut t, depth);
        proof {
            assert(t@ =~= indent(depth as nat));
        }
        let mut spans: Vec<StyledSpan> = Vec::new();
        push_span(&mut spans, styled(&t, Style::colors(None, None)));
        push_span(&mut spans, value_span(value, &th));
        proof {
            assert(spans_v(spans@) =~= indented_value_line(*value, depth as nat, th));
        }
        self.push_line(spans);
    }

    /// An item of an array of simple values: `• value`.
    fn emit_bullet(&mut self, value: &JsonValue, depth: usize)
        ensures
            grew(*old(self), *final(self), seq![bullet_line(*value, depth as nat, old(self).theme)]),
    {
        let th = self.theme;
        let mut t: Vec<char> = Vec::new();
        push_indent(&mut t, depth);
        push_str(&mut t, "• ");
        let mut spans: Vec<StyledSpan> = Vec::new();
        push_span(&mut spans, styled(&t, faint_style(th.json_bracket)));
        push_span(&mut spans, value_span(value, &th));
        proof {
            assert(spans_v(spans@) =~= bullet_line(*value, depth as nat, th));
        }
        self.push_line(spans);
    }

    fn index_chars(index: usize, depth: usize) -> (t: Vec<char>)
        ensures
            t@ == index_text(depth as nat, index as nat),
    {
        let mut t: Vec<char> = Vec::new();
        push_indent(&mut t, depth);
        push_str(&mut t, "[");
        push_all(&mut t, &decimal_chars(index));
        push_str(&mut t, "]");
        proof {
            assert(t@ =~= index_text(depth as nat, index as nat));
        }
        t
    }

    /// `[index]` over a non-empty object item.
    fn emit_index_label(&mut self, index: usize, depth: usize)
        ensures
            grew(*old(self), *final(self), seq![seq![plain(index_text(depth as nat, index as nat), tinted(old(self).theme.json_bracket))]]),
    {
        let th = self.theme;
        let t = Self::index_chars(index, depth);
        let mut spans: Vec<StyledSpan> = Vec::new();
        push_span(&mut spans, styled(&t, tinted_style(th.json_bracket)));
        proof {
            assert(spans_v(spans@) =~= seq![plain(index_text(depth as nat, index as nat), tinted(th.json_bracket))]);
        }
        self.push_line(spans);
    }

    /// `[index] note` over a non-empty array item.
    fn emit_index_label_with_annotation(&mut self, index: usize, annotation: &str, depth: usize)
        ensures
            grew(*old(self), *final(self), seq![seq![
                plain(index_text(depth as nat, index as nat) + " "@, tinted(old(self).theme.json_bracket)),
                plain(annotation@, faint(old(self).theme.json_null)),
            ]]),
    {
        let th = self.theme;
        let mut t = Self::index_chars(index, depth);
        push_str(&mut t, " ");
        let mut spans: Vec<StyledSpan> = Vec::new();
        push_span(&mut spans, styled(&t, tinted_style(th.json_bracket)));
        push_span(&mut spans, styled_str(annotation, faint_style(th.json_null)));
        proof {
            assert(spans_v(spans@) =~= seq![
                plain(index_text(depth as nat, index as nat) + " "@, tinted(th.json_bracket)),
                plain(annotation@, faint(th.json_null)),
            ]);
        }
        self.push_line(spans);
    }

    /// `[index] value` for a simple item of a mixed array.
    fn emit_indexed_value(&mut self, index: usize, value: &JsonValue, depth: usize)
        ensures
            grew(*old(self), *final(self), seq![indexed_value_line(index as nat, *value, depth as nat, old(self).theme)]),
    {
        let th = self.theme;
        let mut t = Self::index_chars(index, depth);
        push_str(&mut t, " ");
        let mut spans: Vec<StyledSpan> = Vec::new();
        push_span(&mut spans, styled(&t, tinted_style(th.json_bracket)));
        push_span(&mut spans, value_span(value, &th));
        proof {
            assert(spans_v(spans@) =~= indexed_value_line(index as nat, *value, depth as nat, th));
        }
        self.push_line(spans);
    }

    /// `{}` or `[]`, marked empty, at `depth`.
    fn emit_empty_container(&mut self, brackets: &str, depth: usize)
        ensures
            grew(*old(self), *final(self), seq![empty_container_line(depth as nat, brackets@, old(self).theme)]),
    {
        let th = self.theme;
        let mut t: Vec<char> = Vec::new();
        push_indent(&mut t, depth);
        push_str(&mut t, brackets);
        let mut spans: Vec<StyledSpan> = Vec::new();
        push_span(&mut spans, styled(&t, tinted_style(th.json_bracket)));
        push_span(&mut spans, styled_str(" empty", faint_style(th.json_null)));
        proof {
            assert(spans_v(spans@) =~= empty_container_line(depth as nat, brackets@, th));
        }
        self.push_line(spans);
    }
}

// ───── table pieces ─────

/// Every string in the objects of a table is cut cleanly where it is
/// shortened.
pub open spec fn table_cells_clean(items: Seq<JsonValue>) -> bool {
    forall|r: int, j: int|
        0 <= r < items.len() && 0 <= j < obj_entries(items[r]).len() ==> match #[trigger] obj_entries(items[r])[j].1 {
            JsonValue::Str(s) => cuts_cleanly(s@),
            _ => true,
        }
}

proof fn lemma_lookup_is_entry(es: Seq<(String, JsonValue)>, k: Seq<char>)
    requires
        lookup(es, k) is Some,
    ensures
        exists|j: int| 0 <= j < es.len() && lookup(es, k) == Some(#[trigger] es[j].1),
    decreases es.len(),
{
    if es[0].0@ == k {
        assert(lookup(es, k) == Some(es[0].1));
    } else {
        lemma_lookup_is_entry(es.drop_first(), k);
        let j = choose|j: int| 0 <= j < es.drop_first().len() && lookup(es.drop_first(), k) == Some(#[trigger] es.drop_first()[j].1);
        assert(es[j + 1] == es.drop_first()[j]);
    }
}

pub proof fn lemma_utf8_len_prefix(s: Seq<char>, k: int)
    requires
        0 <= k < s.len(),
    ensures
        utf8_len(s.subrange(0, k + 1)) == utf8_len(s.subrange(0, k)) + crate::text::char_len(s[k]),
{
    assert(s.subrange(0, k + 1).drop_last() =~= s.subrange(0, k));
}

pub proof fn lemma_utf8_len_grows(s: Seq<char>, j: int, k: int)
    requires
        0 <= j < k <= s.len(),
    ensures
        utf8_len(s.subrange(0, j)) < utf8_len(s.subrange(0, k)),
    decreases k - j,
{
    lemma_utf8_len_prefix(s, k - 1);
    if j < k - 1 {
        lemma_utf8_len_grows(s, j, k - 1);
    }
}

/// The first `k` characters of `s` when they make up 39 bytes.
fn cut_at_39(s: &Vec<char>) -> (k: usize)
    requires
        cuts_cleanly(s@),
        utf8_len(s@) > 40,
    ensures
        k == cut_point(s@),
        0 <= k <= s@.len(),
        utf8_len(s@.subrange(0, k as int)) == 39,
{
    let ghost w = choose|k: int| 0 <= k <= s@.len() && utf8_len(#[trigger] s@.subrange(0, k)) == 39;
    let mut k: usize = 0;
    let mut acc: usize = 0;
    let n = s.len();
    proof {
        assert(s@.subrange(0, 0) =~= Seq::<char>::empty());
    }
    while acc < 39
        invariant
            n == s@.len(),
            k <= s@.len(),
            k <= w,
            acc == utf8_len(s@.subrange(0, k as int)),
            0 <= w <= s@.len(),
            utf8_len(s@.subrange(0, w)) == 39,
        decreases 39 - acc,
    {
        proof {
            if (k as int) < w {
                lemma_utf8_len_prefix(s@, k as int);
                if k + 1 < w {
                    lemma_utf8_len_grows(s@, k + 1, w);
                }
            } else {
                assert(k == w);
                assert(false);
            }
        }
        assert((k as int) < w);
        let c = s[k] as u32;
        let n: usize = if c < 0x80 { 1 } else if c < 0x800 { 2 } else if c < 0x10000 { 3 } else { 4 };
        acc = acc + n;
        k = k + 1;
    }
    proof {
        if (k as int) < w {
            lemma_utf8_len_grows(s@, k as int, w);
        }
        assert(k == w);
    }
    k
}

/// A value as a table cell shows it.
fn short_text_of(v: &JsonValue) -> (t: Vec<char>)
    requires
        v matches JsonValue::Str(s) ==> cuts_cleanly(s@),
    ensures
        t@ == short_text(*v),
{
    match v {
        JsonValue::Str(s) => {
            let cs = chars_of(s.as_str());
            let n = crate::text::utf8_length(&cs);
            if n > 40 {
                let k = cut_at_39(&cs);
                let mut t = crate::text::slice_chars(&cs, 0, k);
                push_str(&mut t, "…");
                t
            } else {
                cs
            }
        },
        JsonValue::Number(n) => chars_of(n.as_str()),
        JsonValue::Bool(b) => chars_of(if *b { "true" } else { "false" }),
        JsonValue::Null => chars_of("null"),
        JsonValue::Object(_) => chars_of("{…}"),
        JsonValue::Array(_) => chars_of("[…]"),
    }
}

proof fn lemma_lookup_skip(es: Seq<(String, JsonValue)>, i: int, k: Seq<char>)
    requires
        0 <= i < es.len(),
        es[i].0@ != k,
    ensures
        lookup(es.subrange(i, es.len() as int), k) == lookup(es.subrange(i + 1, es.len() as int), k),
{
    let t = es.subrange(i, es.len() as int);
    assert(t[0] == es[i]);
    assert(t.drop_first() =~= es.subrange(i + 1, es.len() as int));
}

/// The value of the first entry of object `v` with key `h`.
fn lookup_in<'a>(v: &'a JsonValue, h: &String) -> (r: Option<&'a JsonValue>)
    ensures
        r is Some == lookup(obj_entries(*v), h@) is Some,
        r matches Some(x) ==> lookup(obj_entries(*v), h@) == Some(*x),
{
    match v {
        JsonValue::Object(m) => {
            let ghost es = m@;
            let mut i: usize = 0;
            proof {
                assert(es.subrange(0, es.len() as int) =~= es);
            }
            while i < m.len()
                invariant
                    i <= m@.len(),
                    es == m@,
                    obj_entries(*v) == es,
                    lookup(es, h@) == lookup(es.subrange(i as int, es.len() as int), h@),
                decreases m@.len() - i,
            {
                if m[i].0 == *h {
                    proof {
                        let t = es.subrange(i as int, es.len() as int);
                        assert(t[0] == es[i as int]);
                    }
                    return Some(&m[i].1);
                }
                proof {
                    lemma_lookup_skip(es, i as int, h@);
                }
                i = i + 1;
            }
            proof {
                assert(es.subrange(i as int, es.len() as int) =~= Seq::<(String, JsonValue)>::empty());
            }
            None
        },
        _ => None,
    }
}

/// The text of the cell of object `obj` in column `h`.
fn cell_text_of(obj: &JsonValue, h: &String) -> (t: Vec<char>)
    requires
        match lookup(obj_entries(*obj), h@) {
            Some(JsonValue::Str(s)) => cuts_cleanly(s@),
            _ => true,
        },
    ensures
        t@ == cell_text(*obj, h@),
{
    match lookup_in(obj, h) {
        Some(x) => short_text_of(x),
        None => Vec::new(),
    }
}

fn same_chars(a: &Vec<char>, b: &str) -> (r: bool)
    ensures
        r == (a@ == b@),
{
    let bv = chars_of(b);
    if a.len() != bv.len() {
        return false;
    }
    let mut i: usize = 0;
    while i < a.len()
        invariant
            i <= a@.len(),
            a@.len() == bv@.len(),
            bv@ == b@,
            forall|j: int| 0 <= j < i ==> a@[j] == bv@[j],
        decreases a@.len() - i,
    {
        if a[i] != bv[i] {
            return false;
        }
        i = i + 1;
    }
    proof {
        assert(a@ =~= bv@);
    }
    true
}

fn contains_text(hs: &Vec<String>, k: &String) -> (b: bool)
    ensures
        b == texts_v(hs@).contains(k@),
{
    let mut q: usize = 0;
    while q < hs.len()
        invariant
            q <= hs@.len(),
            forall|j: int| 0 <= j < q ==> hs@[j]@ != k@,
        decreases hs@.len() - q,
    {
        if hs[q] == *k {
            proof {
                assert(texts_v(hs@)[q as int] == k@);
            }
            return true;
        }
        q = q + 1;
    }
    proof {
        if texts_v(hs@).contains(k@) {
            let j = choose|j: int| 0 <= j < texts_v(hs@).len() && texts_v(hs@)[j] == k@;
            assert(hs@[j]@ == k@);
        }
    }
    false
}

/// The table's columns: every key, in the order keys first appear.
/// The items of an array that are objects, in order.
pub open spec fn objects_in(items: Seq<JsonValue>) -> Seq<JsonValue>
    decreases items.len(),
{
    if items.len() == 0 {
        Seq::empty()
    } else if items.last() is Object {
        objects_in(items.drop_last()).push(items.last())
    } else {
        objects_in(items.drop_last())
    }
}

proof fn lemma_objects_keys(items: Seq<JsonValue>)
    ensures
        all_keys(objects_in(items)) == all_keys(items),
    decreases items.len(),
{
    if items.len() > 0 {
        lemma_objects_keys(items.drop_last());
        let p = objects_in(items.drop_last());
        if items.last() is Object {
            assert(objects_in(items).drop_last() =~= p);
        } else {
            assert(keys_of(items.last()) =~= Seq::<Seq<char>>::empty());
            assert(all_keys(items) =~= all_keys(items.drop_last()));
        }
    }
}

/// An array of objects only is its own list of objects.
proof fn lemma_objects_all(items: Seq<JsonValue>)
    requires
        forall|i: int| 0 <= i < items.len() ==> (#[trigger] items[i]) is Object,
    ensures
        objects_in(items) == items,
    decreases items.len(),
{
    if items.len() > 0 {
        lemma_objects_all(items.drop_last());
        assert(items.last() == items[items.len() - 1]);
        assert(items.drop_last().push(items.last()) =~= items);
    }
}

/// The positions of the objects among `items`.
fn object_positions(items: &Vec<JsonValue>) -> (idx: Vec<usize>)
    ensures
        idx@.len() == objects_in(items@).len(),
        forall|k: int| 0 <= k < idx@.len() ==> (#[trigger] idx@[k]) < items@.len() && items@[idx@[k] as int] == objects_in(items@)[k],
{
    let mut idx: Vec<usize> = Vec::new();
    let mut i: usize = 0;
    proof {
        assert(items@.take(0) =~= Seq::<JsonValue>::empty());
    }
    while i < items.len()
        invariant
            i <= items@.len(),
            idx@.len() == objects_in(items@.take(i as int)).len(),
            forall|k: int| 0 <= k < idx@.len() ==> (#[trigger] idx@[k]) < i && items@[idx@[k] as int] == objects_in(items@.take(i as int))[k],
        decreases items@.len() - i,
    {
        let t = Ghost(items@.take(i + 1));
        proof {
            assert(t@.drop_last() =~= items@.take(i as int));
            assert(t@.last() == items@[i as int]);
        }
        if let JsonValue::Object(_) = &items[i] {
            idx.push(i);
        }
        i = i + 1;
    }
    proof {
        assert(items@.take(items@.len() as int) =~= items@);
    }
    idx
}

fn collect_headers(items: &Vec<JsonValue>) -> (hs: Vec<String>)
    ensures
        texts_v(hs@) == table_headers(items@),
{
    let mut hs: Vec<String> = Vec::new();
    let mut r: usize = 0;
    proof {
        assert(items@.take(0) =~= Seq::<JsonValue>::empty());
        assert(texts_v(hs@) =~= first_seen(all_keys(items@.take(0))));
    }
    while r < items.len()
        invariant
            r <= items@.len(),
            texts_v(hs@) == first_seen(all_keys(items@.take(r as int))),
        decreases items@.len() - r,
    {
        let ghost before = all_keys(items@.take(r as int));
        proof {
            let t = items@.take(r + 1);
            assert(t.drop_last() =~= items@.take(r as int));
            assert(t.last() == items@[r as int]);
        }
        match &items[r] {
            JsonValue::Object(m) => {
                let mut j: usize = 0;
                proof {
                    assert(before + keys_of(items@[r as int]).take(0) =~= before);
                }
                while j < m.len()
                    invariant
                        j <= m@.len(),
                        items@[r as int] == JsonValue::Object(*m),
                        texts_v(hs@) == first_seen(before + keys_of(items@[r as int]).take(j as int)),
                    decreases m@.len() - j,
                {
                    let ghost p = before + keys_of(items@[r as int]).take(j as int);
                    let ghost p2 = before + keys_of(items@[r as int]).take(j + 1);
                    proof {
                        assert(p2.drop_last() =~= p);
                        assert(p2.last() == m@[j as int].0@);
                    }
                    if !contains_text(&hs, &m[j].0) {
                        hs.push(m[j].0.clone());
                        proof {
                            assert(texts_v(hs@) =~= first_seen(p).push(m@[j as int].0@));
                        }
                    }
                    j = j + 1;
                }
                proof {
                    assert(keys_of(items@[r as int]).take(m@.len() as int) =~= keys_of(items@[r as int]));
                }
            },
            _ => {
                proof {
                    assert(keys_of(items@[r as int]) =~= Seq::<Seq<char>>::empty());
                    assert(before + keys_of(items@[r as int]) =~= before);
                }
            },
        }
        r = r + 1;
    }
    proof {
        assert(items@.take(items@.len() as int) =~= items@);
    }
    hs
}

fn entry_count(v: &JsonValue) -> (n: usize)
    ensures
        n == obj_entries(*v).len(),
{
    match v {
        JsonValue::Object(m) => m.len(),
        _ => 0,
    }
}

/// Whether an array is drawn as a table; see [`table_shaped`].
pub fn should_render_as_table(items: &Vec<JsonValue>) -> (b: bool)
    ensures
        b == table_shaped(items@),
{
    if items.len() < 2 {
        return false;
    }
    let mut r: usize = 0;
    while r < items.len()
        invariant
            r <= items@.len(),
            forall|i: int| 0 <= i < r ==> (#[trigger] items@[i]) is Object,
        decreases items@.len() - r,
    {
        match &items[r] {
            JsonValue::Object(_) => {},
            _ => {
                return false;
            },
        }
        r = r + 1;
    }
    let mut r: usize = 0;
    while r < items.len()
        invariant
            r <= items@.len(),
            forall|i: int, j: int|
                0 <= i < r && 0 <= j < obj_entries(items@[i]).len() ==> !is_container(
                    #[trigger] obj_entries(items@[i])[j].1,
                ),
        decreases items@.len() - r,
    {
        if let JsonValue::Object(m) = &items[r] {
            let mut j: usize = 0;
            while j < m.len()
                invariant
                    j <= m@.len(),
                    r < items@.len(),
                    items@[r as int] == JsonValue::Object(*m),
                    forall|i: int, j2: int|
                        0 <= i < r && 0 <= j2 < obj_entries(items@[i]).len() ==> !is_container(
                            #[trigger] obj_entries(items@[i])[j2].1,
                        ),
                    forall|j2: int| 0 <= j2 < j ==> !is_container(#[trigger] m@[j2].1),
                decreases m@.len() - j,
            {
                match &m[j].1 {
                    JsonValue::Object(_) | JsonValue::Array(_) => {
                        proof {
                            assert(is_container(obj_entries(items@[r as int])[j as int].1));
                        }
                        return false;
                    },
                    _ => {},
                }
                j = j + 1;
            }
        }
        r = r + 1;
    }
    let hs = collect_headers(items);
    if hs.len() == 0 {
        return false;
    }
    let hl = hs.len();
    let mut r: usize = 0;
    while r < items.len()
        invariant
            r <= items@.len(),
            hl == table_headers(items@).len(),
            forall|i: int| 0 <= i < r ==> 2 * obj_entries(#[trigger] items@[i]).len() >= table_headers(items@).len(),
        decreases items@.len() - r,
    {
        let n = entry_count(&items[r]);
        if n < hl / 2 + hl % 2 {
            return false;
        }
        r = r + 1;
    }
    true
}

fn digits_end_exec(s: &Vec<char>, i: usize) -> (e: usize)
    requires
        i <= s@.len(),
    ensures
        e == digits_end(s@, i as int),
        i <= e <= s@.len(),
{
    let mut k = i;
    while k < s.len() && '0' <= s[k] && s[k] <= '9'
        invariant
            i <= k <= s@.len(),
            digits_end(s@, i as int) == digits_end(s@, k as int),
        decreases s@.len() - k,
    {
        k = k + 1;
    }
    k
}

fn exponent_exec(e: &Vec<char>) -> (b: bool)
    ensures
        b == exponent_text(e@),
{
    if e.len() < 2 {
        return false;
    }
    if !(e[0] == 'e' || e[0] == 'E') {
        return false;
    }
    let d: usize = if e[1] == '+' || e[1] == '-' { 2 } else { 1 };
    d < e.len() && digits_end_exec(e, d) == e.len()
}

fn number_exec(b: &Vec<char>) -> (r: bool)
    ensures
        r == number_text(b@),
{
    let n = b.len();
    let d1 = digits_end_exec(b, 0);
    if d1 < n && b[d1] == '.' {
        let d2 = digits_end_exec(b, d1 + 1);
        (d1 > 0 || d2 > d1 + 1) && (d2 == n || exponent_exec(&crate::text::slice_chars(b, d2, n)))
    } else {
        d1 > 0 && (d1 == n || exponent_exec(&crate::text::slice_chars(b, d1, n)))
    }
}

/// Whether std's `f64::from_str` accepts the text; see [`float_text`].
fn float_exec(t: &Vec<char>) -> (r: bool)
    ensures
        r == float_text(t@),
{
    let b = if t.len() > 0 && (t[0] == '+' || t[0] == '-') {
        let b = crate::text::slice_chars(t, 1, t.len());
        proof {
            assert(b@ =~= t@.drop_first());
        }
        b
    } else {
        crate::text::slice_chars(t, 0, t.len())
    };
    proof {
        assert(t@.subrange(0, t@.len() as int) =~= t@);
    }
    crate::text::chars_eq_ignore_ascii_case(&b, &chars_of("inf"))
        || crate::text::chars_eq_ignore_ascii_case(&b, &chars_of("infinity"))
        || crate::text::chars_eq_ignore_ascii_case(&b, &chars_of("nan"))
        || number_exec(&b)
}

/// The colour of a table cell by what its text looks like.
fn cell_color(t: &Vec<char>, th: &Theme) -> (c: Color)
    ensures
        c == cell_color_of(t@, *th),
{
    if same_chars(t, "null") {
        th.json_null
    } else if same_chars(t, "true") || same_chars(t, "false") {
        th.json_bool
    } else if float_exec(t) && t.len() > 0 {
        th.json_number
    } else {
        th.json_string
    }
}

/// How many leading characters fit in `limit` columns; see [`fit_end`].
fn fit_count(cs: &Vec<char>, limit: usize) -> (k: usize)
    ensures
        k == fit_end(cs@, limit as int, 0, 0),
        k <= cs@.len(),
{
    let mut i: usize = 0;
    let mut cur: usize = 0;
    while i < cs.len()
        invariant
            i <= cs@.len(),
            cur <= limit,
            fit_end(cs@, limit as int, 0, 0) == fit_end(cs@, limit as int, i as int, cur as int),
        decreases cs@.len() - i,
    {
        let mut one: Vec<char> = Vec::new();
        one.push(cs[i]);
        proof {
            assert(one@ =~= seq![cs@[i as int]]);
        }
        let cw = chars_width(&one);
        if cw > limit - cur {
            return i;
        }
        cur = cur + cw;
        i = i + 1;
    }
    i
}

/// `s` padded with spaces to `width` columns, or cut with an ellipsis when
/// wider; see [`padded`].
pub fn pad_or_truncate(s: &Vec<char>, width: usize) -> (r: Vec<char>)
    ensures
        r@ == padded(s@, width as nat),
{
    let w = chars_width(s);
    if w > width {
        let limit = width.saturating_sub(1);
        let k = fit_count(s, limit);
        let mut t = crate::text::slice_chars(s, 0, k);
        t.push('…');
        let fw = chars_width(&t);
        if fw < width {
            push_repeated(&mut t, ' ', width - fw);
        } else {
            proof {
                assert(t@ + repeated(' ', 0) =~= t@);
            }
        }
        t
    } else {
        let mut t = crate::text::slice_chars(s, 0, s.len());
        proof {
            assert(s@.subrange(0, s@.len() as int) =~= s@);
        }
        push_repeated(&mut t, ' ', width - w);
        t
    }
}

pub open spec fn nats(ws: Seq<usize>) -> Seq<nat> {
    ws.map_values(|w: usize| w as nat)
}

pub open spec fn chars_v(ts: Seq<Vec<char>>) -> Seq<Seq<char>> {
    ts.map_values(|t: Vec<char>| t@)
}

pub proof fn lemma_sum_take(s: Seq<nat>, i: int)
    requires
        0 <= i < s.len(),
    ensures
        sum_of(s.take(i + 1)) == sum_of(s.take(i)) + s[i],
{
    assert(s.take(i + 1).drop_last() =~= s.take(i));
}

pub proof fn lemma_sum_ge(s: Seq<nat>, k: int)
    requires
        0 <= k < s.len(),
    ensures
        sum_of(s) >= s[k],
    decreases s.len(),
{
    if k < s.len() - 1 {
        lemma_sum_ge(s.drop_last(), k);
    }
}

proof fn lemma_scaled_fits(w: int, usable: int, total: int)
    requires
        0 <= w <= total,
        0 < total,
        0 <= usable,
    ensures
        0 <= w * usable / total <= usable,
{
    assert(w * usable <= total * usable) by (nonlinear_arith)
        requires
            0 <= w <= total,
            0 <= usable,
    ;
    assert(w * usable / total <= total * usable / total) by (nonlinear_arith)
        requires
            w * usable <= total * usable,
            0 < total,
    ;
    assert(total * usable / total == usable) by (nonlinear_arith)
        requires
            0 < total,
    ;
    assert(0 <= w * usable / total) by (nonlinear_arith)
        requires
            0 <= w,
            0 <= usable,
            0 < total,
    ;
}

/// Column widths of a table; see [`column_widths`].
fn column_widths_of(items: Ghost<Seq<JsonValue>>, hs: &Vec<String>, cells: &Vec<Vec<Vec<char>>>, available: usize) -> (ws: Vec<usize>)
    requires
        texts_v(hs@) == table_headers(items@),
        cells@.len() == items@.len(),
        forall|r: int| 0 <= r < cells@.len() ==> (#[trigger] cells@[r])@.len() == hs@.len(),
        forall|r: int, c: int|
            0 <= r < cells@.len() && 0 <= c < hs@.len() ==> (#[trigger] cells@[r]@[c])@ == cell_text(items@[r], hs@[c]@),
    ensures
        nats(ws@) == column_widths(items@, available as nat),
{
    let ghost hv = table_headers(items@);
    let ghost natural = hv.map_values(|h: Seq<char>| natural_width(items@, h, items@.len() as int));
    let n = hs.len();
    let mut nat_ws: Vec<usize> = Vec::new();
    let mut ci: usize = 0;
    while ci < n
        invariant
            n == hs@.len(),
            hv == texts_v(hs@),
            natural == hv.map_values(|h: Seq<char>| natural_width(items@, h, items@.len() as int)),
            ci <= n,
            nat_ws@.len() == ci,
            forall|c: int| 0 <= c < ci ==> (#[trigger] nat_ws@[c]) as nat == natural[c],
            cells@.len() == items@.len(),
            forall|r: int| 0 <= r < cells@.len() ==> (#[trigger] cells@[r])@.len() == hs@.len(),
            forall|r: int, c: int|
                0 <= r < cells@.len() && 0 <= c < hs@.len() ==> (#[trigger] cells@[r]@[c])@ == cell_text(items@[r], hs@[c]@),
        decreases n - ci,
    {
        let hw = str_width(hs[ci].as_str());
        let mut w: usize = if hw > 3 { hw } else { 3 };
        let mut r: usize = 0;
        while r < cells.len()
            invariant
                ci < n,
                n == hs@.len(),
                r <= cells@.len(),
                cells@.len() == items@.len(),
                w == natural_width(items@, hs@[ci as int]@, r as int),
                forall|r2: int| 0 <= r2 < cells@.len() ==> (#[trigger] cells@[r2])@.len() == hs@.len(),
                forall|r2: int, c: int|
                    0 <= r2 < cells@.len() && 0 <= c < hs@.len() ==> (#[trigger] cells@[r2]@[c])@ == cell_text(items@[r2], hs@[c]@),
            decreases cells@.len() - r,
        {
            let cw = chars_width(&cells[r][ci]);
            if cw > w {
                w = cw;
            }
            r = r + 1;
        }
        nat_ws.push(w);
        ci = ci + 1;
    }
    // the sum of the natural widths, and the room they have
    let mut total: u128 = 0;
    let mut i: usize = 0;
    proof {
        assert(natural.take(0) =~= Seq::<nat>::empty());
    }
    while i < n
        invariant
            i <= n,
            n == nat_ws@.len(),
            natural.len() == n,
            forall|c: int| 0 <= c < n ==> (#[trigger] nat_ws@[c]) as nat == natural[c],
            total == sum_of(natural.take(i as int)),
            total <= i * (usize::MAX as int),
        decreases n - i,
    {
        proof {
            lemma_sum_take(natural, i as int);
            assert(total + nat_ws@[i as int] <= (i + 1) * (usize::MAX as int)) by (nonlinear_arith)
                requires
                    total <= i * (usize::MAX as int),
                    nat_ws@[i as int] <= usize::MAX,
            ;
            assert((i + 1) * (usize::MAX as int) <= (usize::MAX as int) * (usize::MAX as int)) by (nonlinear_arith)
                requires
                    i + 1 <= usize::MAX,
            ;
            lemma_product_fits(usize::MAX as int, usize::MAX as int);
        }
        total = total + nat_ws[i] as u128;
        i = i + 1;
    }
    proof {
        assert(natural.take(n as int) =~= natural);
        assert(total <= (usize::MAX as int) * (usize::MAX as int)) by (nonlinear_arith)
            requires
                total <= n * (usize::MAX as int),
                n <= usize::MAX,
        ;
        lemma_product_fits(usize::MAX as int, usize::MAX as int);
    }
    let seps: u128 = if n > 1 { ((n - 1) as u128) * 3 } else { 0 };
    let need = total.saturating_add(seps).saturating_add(4);
    if need > available as u128 && available as u128 > 4 + seps + n as u128 {
        let usable = available as u128 - 4 - seps;
        proof {
            if n == 0 {
                assert(false);
            }
            lemma_sum_ge(natural, 0);
            assert(natural[0] >= 3) by {
                reveal_with_fuel(natural_width, 1);
                lemma_natural_at_least_3(items@, hv[0], items@.len() as int);
            }
        }
        let mut ws: Vec<usize> = Vec::new();
        let mut c: usize = 0;
        while c < n
            invariant
                c <= n,
                n == nat_ws@.len(),
                natural.len() == n,
                forall|k: int| 0 <= k < n ==> (#[trigger] nat_ws@[k]) as nat == natural[k],
                total == sum_of(natural),
                total > 0,
                usable <= usize::MAX,
                ws@.len() == c,
                forall|k: int| 0 <= k < c ==> (#[trigger] ws@[k]) as int == {
                    let s = natural[k] * usable / total as int;
                    if s > 3 { s } else { 3 }
                },
            decreases n - c,
        {
            proof {
                lemma_sum_ge(natural, c as int);
                lemma_scaled_fits(natural[c as int] as int, usable as int, total as int);
                assert((nat_ws@[c as int] as int) * (usable as int) <= (usize::MAX as int) * (usize::MAX as int)) by (nonlinear_arith)
                    requires
                        nat_ws@[c as int] <= usize::MAX,
                        usable <= usize::MAX,
                ;
                lemma_product_fits(usize::MAX as int, usize::MAX as int);
            }
            let scaled = (nat_ws[c] as u128) * usable / total;
            let s = scaled as usize;
            ws.push(if s > 3 { s } else { 3 });
            c = c + 1;
        }
        proof {
            assert(nats(ws@) =~= column_widths(items@, available as nat));
        }
        ws
    } else {
        proof {
            assert(nats(nat_ws@) =~= column_widths(items@, available as nat));
        }
        nat_ws
    }
}

proof fn lemma_product_fits(a: int, b: int)
    requires
        0 <= a <= usize::MAX,
        0 <= b <= usize::MAX,
    ensures
        a * b <= 0xffff_ffff_ffff_fffe_0000_0000_0000_0001,
        0xffff_ffff_ffff_fffe_0000_0000_0000_0001 < u128::MAX,
{
    assert(a * b <= 0xffff_ffff_ffff_fffe_0000_0000_0000_0001) by (nonlinear_arith)
        requires
            0 <= a <= 0xffff_ffff_ffff_ffff,
            0 <= b <= 0xffff_ffff_ffff_ffff,
    ;
}

proof fn lemma_natural_at_least_3(items: Seq<JsonValue>, h: Seq<char>, n: int)
    ensures
        natural_width(items, h, n) >= 3,
    decreases n,
{
    if n > 0 {
        lemma_natural_at_least_3(items, h, n - 1);
    }
}

fn push_rules(out: &mut Vec<char>, ws: &Vec<usize>, mid: &str)
    ensures
        final(out)@ == old(out)@ + rules(nats(ws@), mid@),
{
    let ghost wv = nats(ws@);
    let mut i: usize = 0;
    proof {
        assert(wv.take(0) =~= Seq::<nat>::empty());
        assert(old(out)@ + rules(wv.take(0), mid@) =~= old(out)@);
    }
    while i < ws.len()
        invariant
            i <= ws@.len(),
            wv == nats(ws@),
            out@ == old(out)@ + rules(wv.take(i as int), mid@),
        decreases ws@.len() - i,
    {
        let ghost before = out@;
        if i > 0 {
            push_str(out, mid);
        }
        push_repeated(out, '─', ws[i]);
        proof {
            let t = wv.take(i + 1);
            assert(t.drop_last() =~= wv.take(i as int));
            assert(t.last() == ws@[i as int] as nat);
            if i == 0 {
                assert(out@ =~= old(out)@ + rules(t, mid@));
            } else {
                assert(out@ =~= old(out)@ + rules(t, mid@));
            }
        }
        i = i + 1;
    }
    proof {
        assert(wv.take(ws@.len() as int) =~= wv);
    }
}

/// A table row: the cells padded to their columns, between bars.
fn row_spans(depth: usize, texts: &Vec<Vec<char>>, ws: &Vec<usize>, styles: &Vec<Style>, th: &Theme) -> (spans: Vec<StyledSpan>)
    requires
        texts@.len() == ws@.len(),
        styles@.len() == ws@.len(),
        forall|k: int| 0 <= k < styles@.len() ==> (#[trigger] styles@[k]).link_url is None,
    ensures
        spans_v(spans@) == row_line(depth as nat, chars_v(texts@), nats(ws@), styles@, *th),
{
    let ghost tv = chars_v(texts@);
    let ghost wv = nats(ws@);
    let mut t: Vec<char> = Vec::new();
    push_indent(&mut t, depth);
    push_str(&mut t, "│ ");
    let mut spans: Vec<StyledSpan> = Vec::new();
    push_span(&mut spans, styled(&t, tinted_style(th.table_border)));
    let ghost first = spans_v(spans@);
    let n = texts.len();
    let mut ci: usize = 0;
    proof {
        assert(first =~= seq![plain(indent(depth as nat) + "│ "@, tinted(th.table_border))]);
    }
    while ci < n
        invariant
            n == texts@.len(),
            texts@.len() == ws@.len(),
            styles@.len() == ws@.len(),
            forall|k: int| 0 <= k < styles@.len() ==> (#[trigger] styles@[k]).link_url is None,
            tv == chars_v(texts@),
            wv == nats(ws@),
            ci <= n,
            spans_v(spans@) + cell_spans(tv, wv, styles@, ci as int, *th) == first + cell_spans(tv, wv, styles@, 0, *th),
        decreases n - ci,
    {
        let ghost before = spans_v(spans@);
        let cell = pad_or_truncate(&texts[ci], ws[ci]);
        push_span(&mut spans, styled(&cell, styles[ci].clone()));
        if ci + 1 < n {
            push_span(&mut spans, styled_str(" │ ", tinted_style(th.table_border)));
        }
        proof {
            let rest = cell_spans(tv, wv, styles@, ci + 1, *th);
            assert(cell_spans(tv, wv, styles@, ci as int, *th) == seq![plain(padded(tv[ci as int], wv[ci as int]), styles@[ci as int])]
                + (if ci < tv.len() - 1 { seq![plain(" │ "@, tinted(th.table_border))] } else { Seq::empty() }) + rest);
            assert(spans_v(spans@) + rest =~= before + cell_spans(tv, wv, styles@, ci as int, *th));
        }
        ci = ci + 1;
    }
    push_span(&mut spans, styled_str(" │", tinted_style(th.table_border)));
    proof {
        assert(cell_spans(tv, wv, styles@, n as int, *th) =~= Seq::<SpanV>::empty());
        assert(spans_v(spans@) =~= row_line(depth as nat, tv, wv, styles@, *th));
    }
    spans
}

impl JsonRenderer {
    fn emit_border(&mut self, depth: usize, ws: &Vec<usize>, left: &str, mid: &str, right: &str)
        ensures
            grew(*old(self), *final(self), seq![border_line(depth as nat, nats(ws@), left@, mid@, right@, old(self).theme)]),
    {
        let th = self.theme;
        let mut t: Vec<char> = Vec::new();
        push_indent(&mut t, depth);
        push_str(&mut t, left);
        push_rules(&mut t, ws, mid);
        push_str(&mut t, right);
        let mut spans: Vec<StyledSpan> = Vec::new();
        push_span(&mut spans, styled(&t, tinted_style(th.table_border)));
        proof {
            assert(spans_v(spans@) =~= border_line(depth as nat, nats(ws@), left@, mid@, right@, th));
        }
        self.push_line(spans);
    }

    /// The objects of an array as a table: a column per key, in the order
    /// the keys first come, a row per object, a cell left empty where its
    /// object lacks the key. Nothing is drawn when no item is an object.
    fn render_table(&mut self, items: &Vec<JsonValue>, depth: usize, available: usize)
        requires
            table_cells_clean(objects_in(items@)),
        ensures
            grew(
                *old(self),
                *final(self),
                if objects_in(items@).len() == 0 {
                    Seq::empty()
                } else {
                    table_lines(objects_in(items@), depth as nat, available as nat, old(self).theme)
                },
            ),
    {
        let idx = object_positions(items);
        let ghost objs = objects_in(items@);
        if idx.len() == 0 {
            proof {
                assert(lines_v(self.lines@) =~= lines_v(self.lines@) + Seq::<Seq<SpanV>>::empty());
            }
            return;
        }
        let th = self.theme;
        let hs = collect_headers(items);
        let ghost hv = table_headers(objs);
        proof {
            lemma_objects_keys(items@);
        }
        let mut cells: Vec<Vec<Vec<char>>> = Vec::new();
        let mut r: usize = 0;
        while r < idx.len()
            invariant
                idx@.len() == objs.len(),
                objs == objects_in(items@),
                forall|k: int| 0 <= k < idx@.len() ==> (#[trigger] idx@[k]) < items@.len() && items@[idx@[k] as int] == objs[k],
                r <= objs.len(),
                texts_v(hs@) == hv,
                hv == table_headers(objs),
                table_cells_clean(objs),
                cells@.len() == r,
                forall|r2: int| 0 <= r2 < r ==> (#[trigger] cells@[r2])@.len() == hs@.len(),
                forall|r2: int, c: int|
                    0 <= r2 < r && 0 <= c < hs@.len() ==> (#[trigger] cells@[r2]@[c])@ == cell_text(objs[r2], hs@[c]@),
            decreases objs.len() - r,
        {
            let mut row: Vec<Vec<char>> = Vec::new();
            let mut c: usize = 0;
            while c < hs.len()
                invariant
                    idx@.len() == objs.len(),
                    objs == objects_in(items@),
                    forall|k: int| 0 <= k < idx@.len() ==> (#[trigger] idx@[k]) < items@.len() && items@[idx@[k] as int] == objs[k],
                    r < objs.len(),
                    c <= hs@.len(),
                    table_cells_clean(objs),
                    row@.len() == c,
                    forall|c2: int| 0 <= c2 < c ==> (#[trigger] row@[c2])@ == cell_text(objs[r as int], hs@[c2]@),
                decreases hs@.len() - c,
            {
                proof {
                    let es = obj_entries(objs[r as int]);
                    let h = hs@[c as int]@;
                    if lookup(es, h) is Some {
                        lemma_lookup_is_entry(es, h);
                        let j = choose|j: int| 0 <= j < es.len() && lookup(es, h) == Some(#[trigger] es[j].1);
                        assert(match obj_entries(objs[r as int])[j].1 {
                            JsonValue::Str(s) => cuts_cleanly(s@),
                            _ => true,
                        });
                    }
                }
                row.push(cell_text_of(&items[idx[r]], &hs[c]));
                c = c + 1;
            }
            cells.push(row);
            r = r + 1;
        }
        let ws = column_widths_of(Ghost(objs), &hs, &cells, available);
        let ghost wv = column_widths(objs, available as nat);
        let ghost start = *self;
        self.emit_border(depth, &ws, "┌─", "─┬─", "─┐");
        // the header row
        let mut hts: Vec<Vec<char>> = Vec::new();
        let mut hst: Vec<Style> = Vec::new();
        let mut c: usize = 0;
        while c < hs.len()
            invariant
                c <= hs@.len(),
                hts@.len() == c,
                hst@.len() == c,
                forall|k: int| 0 <= k < c ==> (#[trigger] hts@[k])@ == hs@[k]@,
                forall|k: int| 0 <= k < c ==> (#[trigger] hst@[k]) == strong(th.table_header),
            decreases hs@.len() - c,
        {
            hts.push(chars_of(hs[c].as_str()));
            hst.push(strong_style(th.table_header));
            c = c + 1;
        }
        proof {
            assert(chars_v(hts@) =~= hv);
            assert(hst@ =~= Seq::new(hv.len(), |i: int| strong(th.table_header)));
            assert(nats(ws@) == wv);
        }
        let ghost a1 = *self;
        let hrow = row_spans(depth, &hts, &ws, &hst, &th);
        self.push_line(hrow);
        let ghost a2 = *self;
        self.emit_border(depth, &ws, "├─", "─┼─", "─┤");
        let ghost a3 = *self;
        proof {
            lemma_grew_trans(start, a1, a2, seq![border_line(depth as nat, wv, "┌─"@, "─┬─"@, "─┐"@, th)],
                seq![row_line(depth as nat, hv, wv, Seq::new(hv.len(), |i: int| strong(th.table_header)), th)]);
            lemma_grew_trans(start, a2, a3, seq![border_line(depth as nat, wv, "┌─"@, "─┬─"@, "─┐"@, th)]
                + seq![row_line(depth as nat, hv, wv, Seq::new(hv.len(), |i: int| strong(th.table_header)), th)],
                seq![border_line(depth as nat, wv, "├─"@, "─┼─"@, "─┤"@, th)]);
        }
        let ghost head = seq![
            border_line(depth as nat, wv, "┌─"@, "─┬─"@, "─┐"@, th),
            row_line(depth as nat, hv, wv, Seq::new(hv.len(), |i: int| strong(th.table_header)), th),
            border_line(depth as nat, wv, "├─"@, "─┼─"@, "─┤"@, th),
        ];
        proof {
            assert(head =~= seq![border_line(depth as nat, wv, "┌─"@, "─┬─"@, "─┐"@, th)]
                + seq![row_line(depth as nat, hv, wv, Seq::new(hv.len(), |i: int| strong(th.table_header)), th)]
                + seq![border_line(depth as nat, wv, "├─"@, "─┼─"@, "─┤"@, th)]);
        }
        // the data rows
        let mut r: usize = 0;
        while r < idx.len()
            invariant
                idx@.len() == objs.len(),
                objs == objects_in(items@),
                forall|k: int| 0 <= k < idx@.len() ==> (#[trigger] idx@[k]) < items@.len() && items@[idx@[k] as int] == objs[k],
                r <= objs.len(),
                cells@.len() == objs.len(),
                texts_v(hs@) == hv,
                hv == table_headers(objs),
                nats(ws@) == wv,
                ws@.len() == hs@.len(),
                self.theme == th,
                self.width == start.width,
                start.theme == th,
                forall|r2: int| 0 <= r2 < cells@.len() ==> (#[trigger] cells@[r2])@.len() == hs@.len(),
                forall|r2: int, c2: int|
                    0 <= r2 < cells@.len() && 0 <= c2 < hs@.len() ==> (#[trigger] cells@[r2]@[c2])@ == cell_text(objs[r2], hs@[c2]@),
                lines_v(self.lines@) + data_rows(objs, r as int, depth as nat, wv, th)
                    == lines_v(start.lines@) + head + data_rows(objs, 0, depth as nat, wv, th),
            decreases objs.len() - r,
        {
            let ghost before = lines_v(self.lines@);
            let mut sts: Vec<Style> = Vec::new();
            let mut c: usize = 0;
            while c < cells[r].len()
                invariant
                    r < cells@.len(),
                    c <= cells@[r as int]@.len(),
                    sts@.len() == c,
                    forall|k: int| 0 <= k < c ==> (#[trigger] sts@[k]) == tinted(cell_color_of(cells@[r as int]@[k]@, th)),
                decreases cells@[r as int]@.len() - c,
            {
                sts.push(tinted_style(cell_color(&cells[r][c], &th)));
                c = c + 1;
            }
            let ghost texts = row_texts(objs[r as int], hv);
            proof {
                assert(chars_v(cells@[r as int]@) =~= texts);
                assert(sts@ =~= row_styles(texts, th));
            }
            let row = row_spans(depth, &cells[r], &ws, &sts, &th);
            self.push_line(row);
            proof {
                assert(lines_v(self.lines@) + data_rows(objs, r + 1, depth as nat, wv, th)
                    =~= before + data_rows(objs, r as int, depth as nat, wv, th));
            }
            r = r + 1;
        }
        let ghost a4 = *self;
        self.emit_border(depth, &ws, "└─", "─┴─", "─┘");
        proof {
            assert(data_rows(objs, objs.len() as int, depth as nat, wv, th) =~= Seq::<Seq<SpanV>>::empty());
            assert(lines_v(self.lines@) =~= lines_v(start.lines@) + table_lines(objs, depth as nat, available as nat, th));
        }
    }
}

// ───── which documents can be drawn ─────

/// Every array of `v` (itself included) that is drawn as a table shows
/// only cleanly cut strings.
pub open spec fn tables_clean(v: JsonValue) -> bool
    decreases v, kids(v) + 1,
{
    match v {
        JsonValue::Array(a) => (table_shaped(a@) ==> table_cells_clean(a@)) && children_clean(v, 0),
        JsonValue::Object(_) => children_clean(v, 0),
        _ => true,
    }
}

/// The children of `v` from `i` on satisfy [`tables_clean`].
pub open spec fn children_clean(v: JsonValue, i: int) -> bool
    decreases v, kids(v) - i,
{
    match v {
        JsonValue::Array(a) => if 0 <= i < a@.len() {
            tables_clean(a@[i]) && children_clean(v, i + 1)
        } else {
            true
        },
        JsonValue::Object(m) => if 0 <= i < m@.len() {
            tables_clean(m@[i].1) && children_clean(v, i + 1)
        } else {
            true
        },
        _ => true,
    }
}

pub proof fn lemma_children_clean(v: JsonValue, i: int, j: int)
    requires
        children_clean(v, i),
        0 <= i <= j < kids(v),
    ensures
        match v {
            JsonValue::Array(a) => tables_clean(a@[j]),
            JsonValue::Object(m) => tables_clean(m@[j].1),
            _ => true,
        },
    decreases j - i,
{
    if i < j {
        lemma_children_clean(v, i + 1, j);
    }
}

/// The column simple values line up at, and whether there is any simple
/// entry.
fn simple_layout(m: &Vec<(String, JsonValue)>) -> (r: (usize, bool))
    ensures
        r.0 == align_of(m@),
        r.1 == has_simple(m@),
{
    let mut w: usize = 0;
    let mut any = false;
    let mut i: usize = 0;
    while i < m.len()
        invariant
            i <= m@.len(),
            w == simple_key_width(m@, i as int),
            any == exists|j: int| 0 <= j < i && is_simple(#[trigger] m@[j].1),
        decreases m@.len() - i,
    {
        if is_primitive_or_empty(&m[i].1) {
            let kw = str_width(m[i].0.as_str());
            if kw > w {
                w = kw;
            }
            any = true;
        }
        proof {
            if is_simple(m@[i as int].1) {
                assert(exists|j: int| 0 <= j < i + 1 && is_simple(#[trigger] m@[j].1));
            }
        }
        i = i + 1;
    }
    (if w < 24 { w } else { 24 }, any)
}

/// Whether some entry holds a non-empty container.
fn any_section(m: &Vec<(String, JsonValue)>) -> (b: bool)
    ensures
        b == has_section(m@),
{
    let mut i: usize = 0;
    while i < m.len()
        invariant
            i <= m@.len(),
            forall|j: int| 0 <= j < i ==> is_simple(#[trigger] m@[j].1),
        decreases m@.len() - i,
    {
        if !is_primitive_or_empty(&m[i].1) {
            return true;
        }
        i = i + 1;
    }
    false
}

fn all_simple_items(a: &Vec<JsonValue>) -> (b: bool)
    ensures
        b == all_simple(a@),
{
    let mut i: usize = 0;
    while i < a.len()
        invariant
            i <= a@.len(),
            forall|j: int| 0 <= j < i ==> is_simple(#[trigger] a@[j]),
        decreases a@.len() - i,
    {
        if !is_primitive_or_empty(&a[i]) {
            return false;
        }
        i = i + 1;
    }
    true
}

fn deeper_exec(depth: usize) -> (d: usize)
    ensures
        d == deeper(depth as nat),
{
    if depth < usize::MAX { depth + 1 } else { depth }
}

impl JsonRenderer {
    /// `key: value` lines for the simple entries.
    fn emit_simple_entries(&mut self, m: &Vec<(String, JsonValue)>, depth: usize, align: usize)
        ensures
            grew(*old(self), *final(self), simple_lines(m@, 0, depth as nat, align as nat, old(self).theme)),
    {
        let th = self.theme;
        let ghost start = *self;
        let mut i: usize = 0;
        while i < m.len()
            invariant
                i <= m@.len(),
                self.theme == th,
                self.width == start.width,
                start.theme == th,
                lines_v(self.lines@) + simple_lines(m@, i as int, depth as nat, align as nat, th)
                    == lines_v(start.lines@) + simple_lines(m@, 0, depth as nat, align as nat, th),
            decreases m@.len() - i,
        {
            let ghost before = lines_v(self.lines@);
            if is_primitive_or_empty(&m[i].1) {
                self.emit_kv(m[i].0.as_str(), &m[i].1, depth, align);
            }
            proof {
                assert(lines_v(self.lines@) + simple_lines(m@, i + 1, depth as nat, align as nat, th)
                    =~= before + simple_lines(m@, i as int, depth as nat, align as nat, th));
            }
            i = i + 1;
        }
        proof {
            assert(simple_lines(m@, m@.len() as int, depth as nat, align as nat, th) =~= Seq::<Seq<SpanV>>::empty());
            assert(lines_v(self.lines@) =~= lines_v(start.lines@) + simple_lines(m@, 0, depth as nat, align as nat, th));
        }
    }

    /// A bullet line per item.
    fn emit_bullets(&mut self, a: &Vec<JsonValue>, depth: usize)
        ensures
            grew(*old(self), *final(self), bullet_lines(a@, 0, depth as nat, old(self).theme)),
    {
        let th = self.theme;
        let ghost start = *self;
        let mut i: usize = 0;
        while i < a.len()
            invariant
                i <= a@.len(),
                self.theme == th,
                self.width == start.width,
                start.theme == th,
                lines_v(self.lines@) + bullet_lines(a@, i as int, depth as nat, th)
                    == lines_v(start.lines@) + bullet_lines(a@, 0, depth as nat, th),
            decreases a@.len() - i,
        {
            let ghost before = lines_v(self.lines@);
            self.emit_bullet(&a[i], depth);
            proof {
                assert(lines_v(self.lines@) + bullet_lines(a@, i + 1, depth as nat, th)
                    =~= before + bullet_lines(a@, i as int, depth as nat, th));
            }
            i = i + 1;
        }
        proof {
            assert(bullet_lines(a@, a@.len() as int, depth as nat, th) =~= Seq::<Seq<SpanV>>::empty());
            assert(lines_v(self.lines@) =~= lines_v(start.lines@) + bullet_lines(a@, 0, depth as nat, th));
        }
    }

    /// A value in a section of its own; see [`value_lines`].
    fn render_value(&mut self, v: &JsonValue, depth: usize)
        requires
            tables_clean(*v),
        ensures
            grew(*old(self), *final(self), value_lines(*v, depth as nat, old(self).width as nat, old(self).theme)),
        decreases v, kids(*v) + 2,
    {
        match v {
            JsonValue::Object(_) => self.render_object(v, depth),
            JsonValue::Array(_) => self.render_array(v, depth),
            _ => self.emit_indented_value(v, depth),
        }
    }

    /// An object's entries; see [`object_lines`].
    fn render_object(&mut self, v: &JsonValue, depth: usize)
        requires
            v is Object,
            tables_clean(*v),
        ensures
            grew(*old(self), *final(self), object_lines(*v, depth as nat, old(self).width as nat, old(self).theme)),
        decreases v, kids(*v) + 1,
    {
        let th = self.theme;
        let ghost width = self.width as nat;
        match v {
            JsonValue::Object(m) => {
                if m.len() == 0 {
                    self.emit_empty_container("{}", depth);
                    return;
                }
                let (align, any_simple) = simple_layout(m);
                let ghost start = *self;
                self.emit_simple_entries(m, depth, align);
                let ghost mid = *self;
                let mut sep = any_simple;
                let mut i: usize = 0;
                while i < m.len()
                    invariant
                        *v == JsonValue::Object(*m),
                        tables_clean(*v),
                        i <= m@.len(),
                        self.theme == th,
                        self.width == mid.width,
                        mid.theme == th,
                        width == mid.width,
                        lines_v(self.lines@) + sections_lines(*v, i as int, depth as nat, sep, width, th)
                            == lines_v(mid.lines@) + sections_lines(*v, 0, depth as nat, any_simple, width, th),
                    decreases m@.len() - i,
                {
                    let ghost before = lines_v(self.lines@);
                    let ghost sep0 = sep;
                    if !is_primitive_or_empty(&m[i].1) {
                        if sep {
                            self.emit_blank();
                        }
                        let ghost after_blank = lines_v(self.lines@);
                        proof {
                            lemma_children_clean(*v, 0, i as int);
                            assert(decreases_to!(*m => m@[i as int]));
                            assert(decreases_to!(*v => (*v)->Object_0));
                            assert(decreases_to!(*v => m@[i as int].1));
                        }
                        self.render_section(m[i].0.as_str(), &m[i].1, depth);
                        sep = true;
                        proof {
                            assert(after_blank =~= before + (if sep0 { seq![Seq::<SpanV>::empty()] } else { Seq::empty() }));
                        }
                    }
                    proof {
                        assert(lines_v(self.lines@) + sections_lines(*v, i + 1, depth as nat, sep, width, th)
                            =~= before + sections_lines(*v, i as int, depth as nat, sep0, width, th));
                    }
                    i = i + 1;
                }
                proof {
                    assert(sections_lines(*v, m@.len() as int, depth as nat, sep, width, th) =~= Seq::<Seq<SpanV>>::empty());
                    assert(lines_v(self.lines@) =~= lines_v(start.lines@) + object_lines(*v, depth as nat, width, th));
                }
            },
            _ => {},
        }
    }

    /// A labelled section; see [`section_lines`].
    fn render_section(&mut self, key: &str, c: &JsonValue, depth: usize)
        requires
            tables_clean(*c),
        ensures
            grew(*old(self), *final(self), section_lines(key@, *c, depth as nat, old(self).width as nat, old(self).theme)),
        decreases c, kids(*c) + 3,
    {
        let ghost start = *self;
        let th = self.theme;
        let next = deeper_exec(depth);
        match c {
            JsonValue::Object(m) => {
                let note = count_note_text(m.len(), "keys");
                self.emit_section_label(key, depth, note.as_str());
                let ghost mid = *self;
                self.render_object(c, next);
                proof {
                    lemma_grew_trans(start, mid, *self,
                        seq![section_label_line(key@, depth as nat, count_note(m@.len(), "keys"@), th)],
                        object_lines(*c, next as nat, start.width as nat, th));
                }
            },
            JsonValue::Array(a) => {
                let note = count_note_text(a.len(), "items");
                self.emit_section_label(key, depth, note.as_str());
                let ghost mid = *self;
                self.render_array(c, next);
                proof {
                    lemma_grew_trans(start, mid, *self,
                        seq![section_label_line(key@, depth as nat, count_note(a@.len(), "items"@), th)],
                        array_lines(*c, next as nat, start.width as nat, th));
                }
            },
            _ => {
                proof {
                    assert(lines_v(self.lines@) =~= lines_v(start.lines@) + Seq::<Seq<SpanV>>::empty());
                }
            },
        }
    }

    /// An array's items; see [`array_lines`].
    fn render_array(&mut self, v: &JsonValue, depth: usize)
        requires
            v is Array,
            tables_clean(*v),
        ensures
            grew(*old(self), *final(self), array_lines(*v, depth as nat, old(self).width as nat, old(self).theme)),
        decreases v, kids(*v) + 1,
    {
        let th = self.theme;
        let ghost width = self.width as nat;
        match v {
            JsonValue::Array(a) => {
                if a.len() == 0 {
                    self.emit_empty_container("[]", depth);
                    return;
                }
                if should_render_as_table(a) {
                    let mut ind: Vec<char> = Vec::new();
                    push_indent(&mut ind, depth);
                    let available = self.width.saturating_sub(chars_width(&ind));
                    proof {
                        lemma_objects_all(a@);
                    }
                    self.render_table(a, depth, available);
                    return;
                }
                if all_simple_items(a) {
                    self.emit_bullets(a, depth);
                    return;
                }
                let ghost start = *self;
                let mut prev = false;
                let mut i: usize = 0;
                while i < a.len()
                    invariant
                        *v == JsonValue::Array(*a),
                        tables_clean(*v),
                        i <= a@.len(),
                        self.theme == th,
                        self.width == start.width,
                        start.theme == th,
                        width == start.width,
                        lines_v(self.lines@) + items_lines(*v, i as int, prev, depth as nat, width, th)
                            == lines_v(start.lines@) + items_lines(*v, 0, false, depth as nat, width, th),
                    decreases a@.len() - i,
                {
                    let ghost before = lines_v(self.lines@);
                    let ghost prev0 = prev;
                    let complex = !is_primitive_or_empty(&a[i]);
                    if i > 0 && (complex || prev) {
                        self.emit_blank();
                    }
                    let ghost after_blank = lines_v(self.lines@);
                    proof {
                        lemma_children_clean(*v, 0, i as int);
                        assert(decreases_to!(*a => a@[i as int]));
                        assert(decreases_to!(*v => (*v)->Array_0));
                        assert(decreases_to!(*v => a@[i as int]));
                    }
                    self.render_item(i, &a[i], depth);
                    prev = complex;
                    proof {
                        assert(after_blank =~= before + (if i > 0 && (complex || prev0) { seq![Seq::<SpanV>::empty()] } else { Seq::empty() }));
                        assert(lines_v(self.lines@) + items_lines(*v, i + 1, prev, depth as nat, width, th)
                            =~= before + items_lines(*v, i as int, prev0, depth as nat, width, th));
                    }
                    i = i + 1;
                }
                proof {
                    assert(items_lines(*v, a@.len() as int, prev, depth as nat, width, th) =~= Seq::<Seq<SpanV>>::empty());
                    assert(lines_v(self.lines@) =~= lines_v(start.lines@) + array_lines(*v, depth as nat, width, th));
                }
            },
            _ => {},
        }
    }

    /// One item of a mixed array; see [`item_lines`].
    fn render_item(&mut self, index: usize, c: &JsonValue, depth: usize)
        requires
            tables_clean(*c),
        ensures
            grew(*old(self), *final(self), item_lines(index as nat, *c, depth as nat, old(self).width as nat, old(self).theme)),
        decreases c, kids(*c) + 3,
    {
        let ghost start = *self;
        let th = self.theme;
        let next = deeper_exec(depth);
        match c {
            JsonValue::Object(m) => {
                if m.len() > 0 {
                    self.emit_index_label(index, depth);
                    let ghost mid = *self;
                    self.render_object(c, next);
                    proof {
                        lemma_grew_trans(start, mid, *self,
                            seq![seq![plain(index_text(depth as nat, index as nat), tinted(th.json_bracket))]],
                            object_lines(*c, next as nat, start.width as nat, th));
                    }
                } else {
                    self.emit_indexed_value(index, c, depth);
                }
            },
            JsonValue::Array(a) => {
                if a.len() > 0 {
                    let note = count_note_text(a.len(), "items");
                    self.emit_index_label_with_annotation(index, note.as_str(), depth);
                    let ghost mid = *self;
                    self.render_array(c, next);
                    proof {
                        lemma_grew_trans(start, mid, *self,
                            seq![seq![
                                plain(index_text(depth as nat, index as nat) + " "@, tinted(th.json_bracket)),
                                plain(count_note(a@.len(), "items"@), faint(th.json_null)),
                            ]],
                            array_lines(*c, next as nat, start.width as nat, th));
                    }
                } else {
                    self.emit_indexed_value(index, c, depth);
                }
            },
            _ => self.emit_indexed_value(index, c, depth),
        }
    }
}

fn size_note_text(v: &JsonValue) -> (s: String)
    ensures
        s@ == size_note(*v),
{
    match v {
        JsonValue::Object(m) => count_note_text(m.len(), "keys"),
        JsonValue::Array(a) => count_note_text(a.len(), "items"),
        _ => String::new(),
    }
}

impl JsonRenderer {
    /// The whole document; see [`document_lines`].
    fn render_root(&mut self, v: &JsonValue)
        requires
            tables_clean(*v),
        ensures
            grew(*old(self), *final(self), document_lines(*v, old(self).width as nat, old(self).theme)),
    {
        let th = self.theme;
        let ghost width = self.width as nat;
        let ghost start = *self;
        match v {
            JsonValue::Object(m) => {
                let (align, any_simple) = simple_layout(m);
                let any_sec = any_section(m);
                self.emit_simple_entries(m, 1, align);
                let ghost a1 = *self;
                if any_simple && any_sec {
                    self.emit_blank();
                }
                let ghost mid = *self;
                proof {
                    assert(lines_v(mid.lines@) =~= lines_v(start.lines@) + simple_lines(m@, 0, 1, align_of(m@), th)
                        + (if has_simple(m@) && has_section(m@) { seq![Seq::<SpanV>::empty()] } else { Seq::empty() }));
                }
                let mut sep = false;
                let mut i: usize = 0;
                while i < m.len()
                    invariant
                        *v == JsonValue::Object(*m),
                        tables_clean(*v),
                        i <= m@.len(),
                        self.theme == th,
                        self.width == mid.width,
                        mid.theme == th,
                        width == mid.width,
                        lines_v(self.lines@) + root_sections(*v, i as int, sep, width, th)
                            == lines_v(mid.lines@) + root_sections(*v, 0, false, width, th),
                    decreases m@.len() - i,
                {
                    let ghost before = lines_v(self.lines@);
                    let ghost sep0 = sep;
                    if !is_primitive_or_empty(&m[i].1) {
                        if sep {
                            self.emit_blank();
                        }
                        let ghost b1 = *self;
                        let note = size_note_text(&m[i].1);
                        self.emit_heading_with_annotation(1, m[i].0.as_str(), note.as_str());
                        let ghost b2 = *self;
                        self.emit_blank();
                        let ghost b3 = *self;
                        proof {
                            lemma_children_clean(*v, 0, i as int);
                        }
                        self.render_value(&m[i].1, 1);
                        sep = true;
                        proof {
                            assert(lines_v(self.lines@) =~= before
                                + (if sep0 { seq![Seq::<SpanV>::empty()] } else { Seq::empty() })
                                + heading_lines(1, m@[i as int].0@, size_note(m@[i as int].1), width, th)
                                + seq![Seq::<SpanV>::empty()]
                                + value_lines(m@[i as int].1, 1, width, th));
                        }
                    }
                    proof {
                        assert(lines_v(self.lines@) + root_sections(*v, i + 1, sep, width, th)
                            =~= before + root_sections(*v, i as int, sep0, width, th));
                    }
                    i = i + 1;
                }
                proof {
                    assert(root_sections(*v, m@.len() as int, sep, width, th) =~= Seq::<Seq<SpanV>>::empty());
                    assert(lines_v(self.lines@) =~= lines_v(start.lines@) + document_lines(*v, width, th));
                }
            },
            JsonValue::Array(a) => {
                let note = if a.len() == 0 { String::new() } else { count_note_text(a.len(), "items") };
                self.emit_heading_with_annotation(1, "root", note.as_str());
                self.emit_blank();
                self.render_array(v, 1);
                proof {
                    assert(lines_v(self.lines@) =~= lines_v(start.lines@) + document_lines(*v, width, th));
                }
            },
            _ => {
                self.emit_heading(1, "value");
                self.emit_blank();
                self.emit_indented_value(v, 1);
                proof {
                    assert(lines_v(self.lines@) =~= lines_v(start.lines@) + document_lines(*v, width, th));
                }
            },
        }
    }
}

/// Whether the string's first 39 bytes end between characters, where a
/// table would shorten it; see [`cuts_cleanly`].
fn cuts_cleanly_exec(s: &String) -> (b: bool)
    ensures
        b == cuts_cleanly(s@),
{
    let cs = chars_of(s.as_str());
    if crate::text::utf8_length(&cs) <= 40 {
        proof {
            crate::text::lemma_utf8_len_nonneg(cs@);
        }
        return true;
    }
    let mut k: usize = 0;
    let mut acc: usize = 0;
    let n = cs.len();
    proof {
        assert(cs@.subrange(0, 0) =~= Seq::<char>::empty());
    }
    while acc < 39 && k < n
        invariant
            n == cs@.len(),
            k <= n,
            acc == utf8_len(cs@.subrange(0, k as int)),
            acc <= 39 + 4,
            forall|j: int| 0 <= j < k ==> utf8_len(#[trigger] cs@.subrange(0, j)) < 39,
        decreases n - k,
    {
        proof {
            lemma_utf8_len_prefix(cs@, k as int);
        }
        let c = cs[k] as u32;
        let w: usize = if c < 0x80 { 1 } else if c < 0x800 { 2 } else if c < 0x10000 { 3 } else { 4 };
        acc = acc + w;
        k = k + 1;
    }
    proof {
        if acc == 39 {
            assert(utf8_len(cs@.subrange(0, k as int)) == 39);
        } else {
            assert forall|j: int| 0 <= j <= cs@.len() implies utf8_len(#[trigger] cs@.subrange(0, j)) != 39 by {
                if j < k {
                } else if j > k {
                    lemma_utf8_len_grows(cs@, k as int, j);
                }
            }
        }
    }
    acc == 39
}

/// Whether every table of `v` can be drawn; see [`tables_clean`].
pub fn tables_cut_cleanly(v: &JsonValue) -> (b: bool)
    ensures
        b == tables_clean(*v),
    decreases v, kids(*v) + 1,
{
    match v {
        JsonValue::Array(a) => {
            if should_render_as_table(a) {
                let mut r: usize = 0;
                while r < a.len()
                    invariant
                        *v == JsonValue::Array(*a),
                        table_shaped(a@),
                        r <= a@.len(),
                        forall|r2: int, j: int|
                            0 <= r2 < r && 0 <= j < obj_entries(a@[r2]).len() ==> match #[trigger] obj_entries(a@[r2])[j].1 {
                                JsonValue::Str(s) => cuts_cleanly(s@),
                                _ => true,
                            },
                    decreases a@.len() - r,
                {
                    if let JsonValue::Object(m) = &a[r] {
                        let mut j: usize = 0;
                        while j < m.len()
                            invariant
                                *v == JsonValue::Array(*a),
                                table_shaped(a@),
                                r < a@.len(),
                                a@[r as int] == JsonValue::Object(*m),
                                j <= m@.len(),
                                forall|r2: int, j2: int|
                                    0 <= r2 < r && 0 <= j2 < obj_entries(a@[r2]).len() ==> match #[trigger] obj_entries(a@[r2])[j2].1 {
                                        JsonValue::Str(s) => cuts_cleanly(s@),
                                        _ => true,
                                    },
                                forall|j2: int| 0 <= j2 < j ==> match #[trigger] m@[j2].1 {
                                    JsonValue::Str(s) => cuts_cleanly(s@),
                                    _ => true,
                                },
                            decreases m@.len() - j,
                        {
                            if let JsonValue::Str(s) = &m[j].1 {
                                if !cuts_cleanly_exec(s) {
                                    proof {
                                        assert(!match obj_entries(a@[r as int])[j as int].1 {
                                            JsonValue::Str(s) => cuts_cleanly(s@),
                                            _ => true,
                                        });
                                    }
                                    return false;
                                }
                            }
                            j = j + 1;
                        }
                    }
                    r = r + 1;
                }
            }
            let mut i: usize = 0;
            while i < a.len()
                invariant
                    *v == JsonValue::Array(*a),
                    i <= a@.len(),
                    children_clean(*v, 0) == children_clean(*v, i as int),
                decreases a@.len() - i,
            {
                proof {
                    assert(decreases_to!(*a => a@[i as int]));
                    assert(decreases_to!(*v => (*v)->Array_0));
                    assert(decreases_to!(*v => a@[i as int]));
                }
                if !tables_cut_cleanly(&a[i]) {
                    return false;
                }
                i = i + 1;
            }
            true
        },
        JsonValue::Object(m) => {
            let mut i: usize = 0;
            while i < m.len()
                invariant
                    *v == JsonValue::Object(*m),
                    i <= m@.len(),
                    children_clean(*v, 0) == children_clean(*v, i as int),
                decreases m@.len() - i,
            {
                proof {
                    assert(decreases_to!(*m => m@[i as int]));
                    assert(decreases_to!(*v => (*v)->Object_0));
                    assert(decreases_to!(*v => m@[i as int].1));
                }
                if !tables_cut_cleanly(&m[i].1) {
                    return false;
                }
                i = i + 1;
            }
            true
        },
        _ => true,
    }
}

// ───── parse errors ─────

/// Where and why a document failed to parse: 1-based line and column, and
/// the parser's message.
pub struct JsonError {
    pub line: usize,
    pub column: usize,
    pub message: String,
}

#[verifier::external_type_specification]
#[verifier::external_body]
pub struct ExJsonDocValue(serde_json::Value);

/// What serde_json's `from_str` makes of a document, as a [`JsonValue`], or
/// the error it reports.
pub uninterp spec fn json_parsed(input: Seq<char>) -> Result<JsonValue, JsonError>;

/// serde_json's `from_str` into a `serde_json::Value`, converted to a
/// [`JsonValue`], or its error's line, column and message: named
/// [`json_parsed`].
#[verifier::external_body]
pub(crate) fn parse_json(input: &str) -> (r: Result<JsonValue, JsonError>)
    ensures
        r == json_parsed(input@),
{
    match serde_json::from_str::<serde_json::Value>(input) {
        Ok(v) => Ok(json_value_of(v)),
        Err(e) => Err(JsonError { line: e.line(), column: e.column(), message: e.to_string() }),
    }
}

/// A `serde_json::Value` as a [`JsonValue`], variant for variant: a number
/// by serde_json's text of it, an object's entries in its map's order.
#[verifier::external_body]
fn json_value_of(v: serde_json::Value) -> JsonValue {
    match v {
        serde_json::Value::Null => JsonValue::Null,
        serde_json::Value::Bool(b) => JsonValue::Bool(b),
        serde_json::Value::Number(n) => JsonValue::Number(n.to_string()),
        serde_json::Value::String(t) => JsonValue::Str(t),
        serde_json::Value::Array(a) => JsonValue::Array(a.into_iter().map(json_value_of).collect()),
        serde_json::Value::Object(m) => JsonValue::Object(m.into_iter().map(|(k, x)| (k, json_value_of(x))).collect()),
    }
}

/// Index of the first line feed of `s` at or after `i`, or the end.
pub open spec fn newline_from(s: Seq<char>, i: int) -> int
    decreases s.len() - i,
{
    if i < 0 || i >= s.len() || s[i] == '\n' {
        i
    } else {
        newline_from(s, i + 1)
    }
}

pub proof fn lemma_newline_from(s: Seq<char>, i: int)
    requires
        0 <= i <= s.len(),
    ensures
        i <= newline_from(s, i) <= s.len(),
        newline_from(s, i) < s.len() ==> s[newline_from(s, i)] == '\n',
    decreases s.len() - i,
{
    if i < s.len() && s[i] != '\n' {
        lemma_newline_from(s, i + 1);
    }
}

/// The lines of a text as std's `str::lines` gives them: split after each
/// line feed, without it and without a carriage return just before it; a
/// final line feed starts no further line.
pub open spec fn text_lines(s: Seq<char>) -> Seq<Seq<char>>
    decreases s.len(),
{
    if s.len() == 0 {
        Seq::empty()
    } else {
        let k = newline_from(s, 0);
        proof {
            lemma_newline_from(s, 0);
        }
        let piece = s.subrange(0, k);
        let line = if k < s.len() && piece.len() > 0 && piece.last() == '\r' { piece.drop_last() } else { piece };
        if k < s.len() {
            seq![line] + text_lines(s.subrange(k + 1, s.len() as int))
        } else {
            seq![line]
        }
    }
}

pub open spec fn error_color() -> Color {
    Color::Rgb { r: 243, g: 139, b: 168 }
}

/// `d` right-aligned in `w` columns.
pub open spec fn right_aligned(d: Seq<char>, w: nat) -> Seq<char> {
    (if d.len() < w { repeated(' ', (w - d.len()) as nat) } else { Seq::empty() }) + d
}

/// A numbered source line; the one with the error stands out.
pub open spec fn context_line(n: nat, content: Seq<char>, is_err: bool, th: Theme) -> Seq<SpanV> {
    seq![
        plain(
            "  "@ + right_aligned(decimal(n), 4) + " │ "@,
            Style { fg: Some(if is_err { error_color() } else { th.line_number }), dim: !is_err, ..unstyled() },
        ),
        plain(content, tinted(if is_err { th.fg } else { th.json_null })),
    ]
}

/// A caret under the error's column.
pub open spec fn caret_line(column: nat) -> Seq<SpanV> {
    seq![plain(repeated(' ', 9 + (if column >= 1 { column - 1 } else { 0 }) as nat) + "^"@, strong(error_color()))]
}

/// The source lines `src[i..end]`, numbered, with a caret under the error.
pub open spec fn context_lines(src: Seq<Seq<char>>, err_line: nat, column: nat, i: int, end: int, th: Theme) -> Seq<Seq<SpanV>>
    decreases end - i,
{
    if i < 0 || i >= end {
        Seq::empty()
    } else {
        seq![context_line((i + 1) as nat, src[i], i + 1 == err_line, th)]
            + (if i + 1 == err_line { seq![caret_line(column)] } else { Seq::empty() })
            + context_lines(src, err_line, column, i + 1, end, th)
    }
}

/// The report of a parse error: a heading, the message, and the source
/// from two lines before the error's line to two lines after it.
pub open spec fn error_lines(input: Seq<char>, e: JsonError, width: nat, th: Theme) -> Seq<Seq<SpanV>> {
    let src = text_lines(input);
    let start: int = if e.line >= 3 { e.line - 3 } else { 0 };
    let end: int = if e.line + 2 < src.len() { e.line + 2 } else { src.len() as int };
    seq![
        seq![plain("  Invalid JSON"@, strong(error_color()))],
        seq![plain(repeated('─', rule_width(width)), tinted(th.heading_separator))],
        Seq::<SpanV>::empty(),
        seq![plain("  Error: "@, strong(error_color())), plain(e.message@, tinted(th.fg))],
        Seq::<SpanV>::empty(),
    ] + context_lines(src, e.line as nat, e.column as nat, start, end, th) + seq![Seq::<SpanV>::empty()]
}

proof fn lemma_newline_shift(s: Seq<char>, pos: int, i: int)
    requires
        0 <= pos <= s.len(),
        0 <= i <= s.len() - pos,
    ensures
        newline_from(s.subrange(pos, s.len() as int), i) == newline_from(s, pos + i) - pos,
    decreases s.len() - pos - i,
{
    let t = s.subrange(pos, s.len() as int);
    if i < t.len() {
        assert(t[i] == s[pos + i]);
        if t[i] != '\n' {
            lemma_newline_shift(s, pos, i + 1);
        }
    }
}

/// The lines of the text, as [`text_lines`] gives them.
fn split_text_lines(s: &Vec<char>) -> (ls: Vec<Vec<char>>)
    ensures
        chars_v(ls@) == text_lines(s@),
{
    let n = s.len();
    let mut ls: Vec<Vec<char>> = Vec::new();
    let mut pos: usize = 0;
    proof {
        assert(s@.subrange(0, n as int) =~= s@);
    }
    while pos < n
        invariant
            n == s@.len(),
            pos <= n,
            text_lines(s@) == chars_v(ls@) + text_lines(s@.subrange(pos as int, n as int)),
        decreases n - pos,
    {
        let ghost t = s@.subrange(pos as int, n as int);
        let mut k = pos;
        while k < n && s[k] != '\n'
            invariant
                pos <= k <= n,
                n == s@.len(),
                newline_from(s@, pos as int) == newline_from(s@, k as int),
            decreases n - k,
        {
            k = k + 1;
        }
        proof {
            lemma_newline_shift(s@, pos as int, 0);
            lemma_newline_from(s@, pos as int);
            lemma_newline_from(t, 0);
        }
        let mut line = crate::text::slice_chars(s, pos, k);
        if k < n && line.len() > 0 && line[line.len() - 1] == '\r' {
            line.pop();
        }
        let ghost before = chars_v(ls@);
        ls.push(line);
        proof {
            let kk = (k - pos) as int;
            assert(t.subrange(0, kk) =~= s@.subrange(pos as int, k as int));
            if k < n {
                assert(t.subrange(kk + 1, t.len() as int) =~= s@.subrange(k + 1, n as int));
            }
            assert(chars_v(ls@) =~= before.push(ls@.last()@));
        }
        pos = if k < n { k + 1 } else { n };
        proof {
            if k >= n {
                assert(s@.subrange(n as int, n as int) =~= Seq::<char>::empty());
                assert(text_lines(s@.subrange(n as int, n as int)) =~= Seq::<Seq<char>>::empty());
            }
            assert(text_lines(s@) =~= chars_v(ls@) + text_lines(s@.subrange(pos as int, n as int)));
        }
    }
    proof {
        assert(s@.subrange(n as int, n as int) =~= Seq::<char>::empty());
        assert(chars_v(ls@) + Seq::<Seq<char>>::empty() =~= chars_v(ls@));
    }
    ls
}

impl JsonRenderer {
    /// A numbered source line, and the caret under the error when it is
    /// the error's line.
    fn emit_context_line(&mut self, i: usize, content: &Vec<char>, err: &JsonError)
        requires
            i < usize::MAX,
        ensures
            grew(*old(self), *final(self), seq![context_line((i + 1) as nat, content@, i + 1 == err.line, old(self).theme)]
                + (if i + 1 == err.line { seq![caret_line(err.column as nat)] } else { Seq::empty() })),
    {
        let th = self.theme;
        let is_err = i + 1 == err.line;
        let digits = decimal_chars(i + 1);
        let mut t: Vec<char> = Vec::new();
        push_str(&mut t, "  ");
        if digits.len() < 4 {
            push_repeated(&mut t, ' ', 4 - digits.len());
        }
        push_all(&mut t, &digits);
        push_str(&mut t, " │ ");
        proof {
            assert(t@ =~= "  "@ + right_aligned(decimal((i + 1) as nat), 4) + " │ "@);
        }
        let mut num_style = Style::fg(if is_err { error_color_exec() } else { th.line_number });
        num_style.dim = !is_err;
        let mut spans: Vec<StyledSpan> = Vec::new();
        push_span(&mut spans, styled(&t, num_style));
        push_span(&mut spans, styled(content, tinted_style(if is_err { th.fg } else { th.json_null })));
        proof {
            assert(spans_v(spans@) =~= context_line((i + 1) as nat, content@, is_err, th));
        }
        self.push_line(spans);
        if is_err {
            let ghost mid = *self;
            let mut c: Vec<char> = Vec::new();
            push_repeated(&mut c, ' ', 9);
            push_repeated(&mut c, ' ', err.column.saturating_sub(1));
            c.push('^');
            let mut sp2: Vec<StyledSpan> = Vec::new();
            push_span(&mut sp2, styled(&c, strong_style(error_color_exec())));
            proof {
                assert(c@ =~= repeated(' ', 9 + (if err.column >= 1 { err.column - 1 } else { 0 }) as nat) + "^"@) by {
                    reveal_strlit("^");
                }
                assert(spans_v(sp2@) =~= caret_line(err.column as nat));
            }
            self.push_line(sp2);
            proof {
                lemma_grew_trans(*old(self), mid, *self, seq![context_line((i + 1) as nat, content@, is_err, th)],
                    seq![caret_line(err.column as nat)]);
            }
        } else {
            proof {
                assert(seq![context_line((i + 1) as nat, content@, is_err, th)] + Seq::<Seq<SpanV>>::empty()
                    =~= seq![context_line((i + 1) as nat, content@, is_err, th)]);
            }
        }
    }

    /// The report of a parse error; see [`error_lines`].
    fn emit_parse_error(&mut self, input: &str, err: &JsonError)
        requires
        ensures
            grew(*old(self), *final(self), error_lines(input@, *err, old(self).width as nat, old(self).theme)),
    {
        let th = self.theme;
        let ghost width = self.width as nat;
        let ghost start = *self;
        let mut spans: Vec<StyledSpan> = Vec::new();
        push_span(&mut spans, styled_str("  Invalid JSON", strong_style(error_color_exec())));
        proof {
            assert(spans_v(spans@) =~= seq![plain("  Invalid JSON"@, strong(error_color()))]);
        }
        self.push_line(spans);
        proof {
            assert(lines_v(self.lines@) =~= lines_v(start.lines@) + seq![seq![plain("  Invalid JSON"@, strong(error_color()))]]);
        }
        let sep_w = if self.width < 60 { self.width } else { 60 };
        let mut rule: Vec<char> = Vec::new();
        push_repeated(&mut rule, '─', sep_w);
        let mut spans: Vec<StyledSpan> = Vec::new();
        push_span(&mut spans, styled(&rule, tinted_style(th.heading_separator)));
        proof {
            assert(spans_v(spans@) =~= seq![plain(repeated('─', rule_width(width)), tinted(th.heading_separator))]);
        }
        self.push_line(spans);
        proof {
            assert(lines_v(self.lines@) =~= lines_v(start.lines@) + seq![
                seq![plain("  Invalid JSON"@, strong(error_color()))],
                seq![plain(repeated('─', rule_width(width)), tinted(th.heading_separator))],
            ]);
        }
        self.emit_blank();
        let mut spans: Vec<StyledSpan> = Vec::new();
        push_span(&mut spans, styled_str("  Error: ", strong_style(error_color_exec())));
        push_span(&mut spans, styled_str(err.message.as_str(), tinted_style(th.fg)));
        proof {
            assert(spans_v(spans@) =~= seq![plain("  Error: "@, strong(error_color())), plain(err.message@, tinted(th.fg))]);
        }
        self.push_line(spans);
        self.emit_blank();
        let ghost head = seq![
            seq![plain("  Invalid JSON"@, strong(error_color()))],
            seq![plain(repeated('─', rule_width(width)), tinted(th.heading_separator))],
            Seq::<SpanV>::empty(),
            seq![plain("  Error: "@, strong(error_color())), plain(err.message@, tinted(th.fg))],
            Seq::<SpanV>::empty(),
        ];
        proof {
            assert(lines_v(self.lines@) =~= lines_v(start.lines@) + head);
        }
        let src = split_text_lines(&chars_of(input));
        let ghost sv = text_lines(input@);
        let first = err.line.saturating_sub(3);
        let end = if err.line.saturating_add(2) < src.len() { err.line + 2 } else { src.len() };
        let ghost mid = *self;
        let mut i = first;
        while i < end
            invariant
                first <= i,
                end <= src@.len(),
                chars_v(src@) == sv,
                self.theme == th,
                self.width == start.width,
                mid.theme == th,
                lines_v(self.lines@) + context_lines(sv, err.line as nat, err.column as nat, i as int, end as int, th)
                    == lines_v(mid.lines@) + context_lines(sv, err.line as nat, err.column as nat, first as int, end as int, th),
            decreases end - i,
        {
            let ghost before = lines_v(self.lines@);
            self.emit_context_line(i, &src[i], err);
            proof {
                assert(src@[i as int]@ == sv[i as int]);
                assert(lines_v(self.lines@) + context_lines(sv, err.line as nat, err.column as nat, i + 1, end as int, th)
                    =~= before + context_lines(sv, err.line as nat, err.column as nat, i as int, end as int, th));
            }
            i = i + 1;
        }
        self.emit_blank();
        proof {
            assert(context_lines(sv, err.line as nat, err.column as nat, i as int, end as int, th) =~= Seq::<Seq<SpanV>>::empty());
            assert(lines_v(self.lines@) =~= lines_v(start.lines@) + error_lines(input@, *err, width, th));
        }
    }
}

fn error_color_exec() -> (c: Color)
    ensures
        c == error_color(),
{
    Color::Rgb { r: 243, g: 139, b: 168 }
}

/// Renders a JSON document: the parsed value as a document (see
/// [`document_lines`]), or, when it did not parse, a report of the error
/// with the source around it (see [`error_lines`]).
pub fn render_parsed(parsed: &Result<JsonValue, JsonError>, input: &str, width: usize, theme: &Theme) -> (lines: Vec<Line>)
    requires
        *parsed matches Ok(v) ==> tables_clean(v),
    ensures
        lines_v(lines@) == match *parsed {
            Ok(v) => document_lines(v, width as nat, *theme),
            Err(e) => error_lines(input@, e, width as nat, *theme),
        },
{
    let mut r = JsonRenderer { theme: *theme, lines: Vec::new(), width };
    proof {
        assert(lines_v(r.lines@) =~= Seq::<Seq<SpanV>>::empty());
    }
    match parsed {
        Ok(v) => r.render_root(v),
        Err(e) => r.emit_parse_error(input, e),
    }
    proof {
        assert(lines_v(r.lines@) =~= match *parsed {
            Ok(v) => document_lines(v, width as nat, *theme),
            Err(e) => error_lines(input@, e, width as nat, *theme),
        });
    }
    r.lines
}

/// Whether a parse result can be drawn: any parse error, or a document
/// whose tables cut their cells cleanly.
pub open spec fn drawable(parsed: Result<JsonValue, JsonError>) -> bool {
    match parsed {
        Ok(v) => tables_clean(v),
        Err(_) => true,
    }
}

fn is_drawable(parsed: &Result<JsonValue, JsonError>) -> (b: bool)
    ensures
        b == drawable(*parsed),
{
    match parsed {
        Ok(v) => tables_cut_cleanly(v),
        Err(_) => true,
    }
}

/// Parses `input` with serde_json and renders it (see [`render_parsed`]):
/// the document, or the report of its parse error; `None` where what was
/// parsed cannot be drawn (see [`drawable`]).
pub fn render(input: &str, width: usize, theme: &Theme) -> (r: Option<Vec<Line>>)
    ensures
        r is Some <==> drawable(json_parsed(input@)),
        r matches Some(lines) ==> lines_v(lines@) == match json_parsed(input@) {
            Ok(v) => document_lines(v, width as nat, *theme),
            Err(e) => error_lines(input@, e, width as nat, *theme),
        },
{
    let parsed = parse_json(input);
    if !is_drawable(&parsed) {
        return None;
    }
    Some(render_parsed(&parsed, input, width, theme))
}

// ───── the interactive view: cards that open and close ─────

/// Lines, and the toggles among them that the cursor can visit: the line
/// each stands on and the path of the node it opens.
pub type Piece = (Seq<Seq<SpanV>>, Seq<(int, Seq<char>)>);

pub open spec fn join(a: Piece, b: Piece) -> Piece {
    (a.0 + b.0, a.1 + b.1)
}

pub open spec fn just_lines(ls: Seq<Seq<SpanV>>) -> Piece {
    (ls, Seq::empty())
}

/// The width of a card opened at `nesting`: seven columns narrower per
/// level, never under 16.
pub open spec fn card_width(nesting: int, width: int) -> int {
    let base = if width > 6 { width - 6 } else { 0 };
    let w = if base > nesting * 7 { base - nesting * 7 } else { 0 };
    if w > 16 { w } else { 16 }
}

pub open spec fn card_border(left: char, right: char, w: int, th: Theme) -> Seq<SpanV> {
    seq![plain("  "@ + seq![left] + repeated('─', (w - 2) as nat) + seq![right], tinted(th.json_bracket))]
}

/// Number of characters of a line.
pub open spec fn spans_width(l: Seq<SpanV>) -> int
    decreases l.len(),
{
    if l.len() == 0 {
        0
    } else {
        spans_width(l.drop_last()) + l.last().0.len()
    }
}

/// A line inside a card `w` wide: a bar on the left, and on the right,
/// after padding to the card's inner width, another bar.
pub open spec fn in_card(l: Seq<SpanV>, w: int, th: Theme) -> Seq<SpanV> {
    let inner = if w > 4 { w - 4 } else { 0 };
    let pad = if inner > spans_width(l) { inner - spans_width(l) } else { 0 };
    seq![plain("  │  "@, tinted(th.json_bracket))] + l + seq![plain(repeated(' ', pad as nat) + "│"@, tinted(th.json_bracket))]
}

/// Content in a card opened at `nesting`.
pub open spec fn boxed(content: Piece, nesting: int, width: int, th: Theme) -> Piece {
    let w = card_width(nesting, width);
    (
        seq![card_border('╭', '╮', w, th)] + content.0.map_values(|l: Seq<SpanV>| in_card(l, w, th))
            + seq![card_border('╰', '╯', w, th)],
        content.1,
    )
}

/// How the interactive view shows a value inline: containers show nothing.
pub open spec fn card_value_span_v(v: JsonValue, th: Theme) -> SpanV {
    match v {
        JsonValue::Object(_) => plain(Seq::empty(), unstyled()),
        JsonValue::Array(_) => plain(Seq::empty(), unstyled()),
        _ => value_span_v(v, th),
    }
}

pub open spec fn card_bullet_line(v: JsonValue, th: Theme) -> Seq<SpanV> {
    seq![plain("• "@, faint(th.json_bracket)), card_value_span_v(v, th)]
}

pub open spec fn card_bullets(items: Seq<JsonValue>, i: int, th: Theme) -> Seq<Seq<SpanV>>
    decreases items.len() - i,
{
    if i < 0 || i >= items.len() {
        Seq::empty()
    } else {
        seq![card_bullet_line(items[i], th)] + card_bullets(items, i + 1, th)
    }
}

pub open spec fn card_indexed_line(index: nat, v: JsonValue, th: Theme) -> Seq<SpanV> {
    seq![plain(index_text(0, index) + " "@, tinted(th.json_bracket)), card_value_span_v(v, th)]
}

/// `N keys` or `N items`.
pub open spec fn value_summary(v: JsonValue) -> Seq<char> {
    match v {
        JsonValue::Object(m) => decimal(m@.len()) + " keys"@,
        JsonValue::Array(a) => decimal(a@.len()) + " items"@,
        _ => Seq::empty(),
    }
}

/// A toggle: an arrow (down when open), the label, and the size.
pub open spec fn toggle_line(label: Seq<char>, summary: Seq<char>, open: bool, depth: nat, th: Theme) -> Seq<SpanV> {
    seq![
        plain(indent(depth) + (if open { "▼"@ } else { "▶"@ }) + " "@, strong(if open { th.h2 } else { th.json_bracket })),
        plain(label, strong(th.json_key)),
        plain("  "@ + summary, faint(th.json_null)),
    ]
}

/// The columns a table has in a card whose content is at `nesting`.
pub open spec fn card_table_room(nesting: int, width: int) -> nat {
    let w = card_width(if nesting >= 1 { nesting - 1 } else { 0 }, width);
    if w > 8 { (w - 8) as nat } else { 0 }
}

/// A container's content at `nesting`, its toggles leading to `path`'s
/// children; the first line is line `start` of the document.
pub open spec fn card_value(
    v: JsonValue,
    path: Seq<char>,
    nesting: nat,
    start: int,
    open: Seq<Seq<char>>,
    width: nat,
    th: Theme,
) -> Piece
    decreases v, kids(v) + 2,
{
    match v {
        JsonValue::Object(_) => card_object(v, path, nesting, start, false, open, width, th),
        JsonValue::Array(_) => card_array(v, path, nesting, start, open, width, th),
        _ => just_lines(Seq::empty()),
    }
}

/// An object's entries: the simple ones aligned, then a toggle per nested
/// container, with its card below when it is open. At the top level the
/// entries are indented and the paths are the keys.
pub open spec fn card_object(
    v: JsonValue,
    path: Seq<char>,
    nesting: nat,
    start: int,
    top: bool,
    open: Seq<Seq<char>>,
    width: nat,
    th: Theme,
) -> Piece
    decreases v, kids(v) + 1,
{
    match v {
        JsonValue::Object(m) => {
            let simple = simple_lines(m@, 0, if top { 1 } else { 0 }, align_of(m@), th);
            join(
                just_lines(simple),
                card_sections(v, 0, path, nesting, start + simple.len(), has_simple(m@), top, open, width, th),
            )
        },
        _ => just_lines(Seq::empty()),
    }
}

/// The path of an entry's value.
pub open spec fn entry_path(path: Seq<char>, key: Seq<char>, top: bool) -> Seq<char> {
    if top { key } else { path + "."@ + key }
}

/// The toggles of object `v` from entry `i` on; `sep` when a blank line
/// goes before the next one.
pub open spec fn card_sections(
    v: JsonValue,
    i: int,
    path: Seq<char>,
    nesting: nat,
    start: int,
    sep: bool,
    top: bool,
    open: Seq<Seq<char>>,
    width: nat,
    th: Theme,
) -> Piece
    decreases v, kids(v) - i,
{
    match v {
        JsonValue::Object(m) => if i < 0 || i >= m@.len() {
            just_lines(Seq::empty())
        } else if is_simple(m@[i].1) {
            card_sections(v, i + 1, path, nesting, start, sep, top, open, width, th)
        } else {
            let blank: Seq<Seq<SpanV>> = if sep { seq![Seq::<SpanV>::empty()] } else { Seq::empty() };
            let at = start + blank.len();
            let cp = entry_path(path, m@[i].0@, top);
            let is_open = open.contains(cp);
            let toggle: Piece = (
                seq![toggle_line(m@[i].0@, value_summary(m@[i].1), is_open, if top { 1 } else { 0 }, th)],
                seq![(at, cp)],
            );
            let inner = if is_open { card_entry(cp, m@[i].1, nesting, at + 1, open, width, th) } else { just_lines(Seq::empty()) };
            let here = join(join(just_lines(blank), toggle), inner);
            join(here, card_sections(v, i + 1, path, nesting, start + here.0.len(), true, top, open, width, th))
        },
        _ => just_lines(Seq::empty()),
    }
}

/// A card opened at `nesting` around the content of `c`.
pub open spec fn card_entry(
    path: Seq<char>,
    c: JsonValue,
    nesting: nat,
    start: int,
    open: Seq<Seq<char>>,
    width: nat,
    th: Theme,
) -> Piece
    decreases c, kids(c) + 3,
{
    boxed(card_value(c, path, deeper(nesting), start + 1, open, width, th), nesting as int, width as int, th)
}

/// An array's items: a table, bullets, or toggles and indexed values.
pub open spec fn card_array(
    v: JsonValue,
    path: Seq<char>,
    nesting: nat,
    start: int,
    open: Seq<Seq<char>>,
    width: nat,
    th: Theme,
) -> Piece
    decreases v, kids(v) + 1,
{
    match v {
        JsonValue::Array(a) => if a@.len() == 0 {
            just_lines(Seq::empty())
        } else if table_shaped(a@) {
            just_lines(table_lines(a@, 0, card_table_room(nesting as int, width as int), th))
        } else if all_simple(a@) {
            just_lines(card_bullets(a@, 0, th))
        } else {
            card_items(v, 0, false, path, nesting, start, open, width, th)
        },
        _ => just_lines(Seq::empty()),
    }
}

pub open spec fn item_path(path: Seq<char>, index: nat) -> Seq<char> {
    path + "["@ + decimal(index) + "]"@
}

/// The items of array `v` from `i` on; `prev` when the item before was a
/// non-empty container.
pub open spec fn card_items(
    v: JsonValue,
    i: int,
    prev: bool,
    path: Seq<char>,
    nesting: nat,
    start: int,
    open: Seq<Seq<char>>,
    width: nat,
    th: Theme,
) -> Piece
    decreases v, kids(v) - i,
{
    match v {
        JsonValue::Array(a) => if i < 0 || i >= a@.len() {
            just_lines(Seq::empty())
        } else {
            let item = a@[i];
            let complex = !is_simple(item);
            let blank: Seq<Seq<SpanV>> = if i > 0 && (complex || prev) { seq![Seq::<SpanV>::empty()] } else { Seq::empty() };
            let at = start + blank.len();
            let ip = item_path(path, i as nat);
            let body: Piece = if complex {
                let is_open = open.contains(ip);
                join(
                    (seq![toggle_line("["@ + decimal(i as nat) + "]"@, value_summary(item), is_open, 0, th)], seq![(at, ip)]),
                    if is_open { card_entry(ip, item, nesting, at + 1, open, width, th) } else { just_lines(Seq::empty()) },
                )
            } else {
                just_lines(seq![card_indexed_line(i as nat, item, th)])
            };
            let here = join(just_lines(blank), body);
            join(here, card_items(v, i + 1, complex, path, nesting, start + here.0.len(), open, width, th))
        },
        _ => just_lines(Seq::empty()),
    }
}

/// The interactive view of a document, with the nodes whose paths are in
/// `open` expanded.
pub open spec fn card_document(v: JsonValue, open: Seq<Seq<char>>, width: nat, th: Theme) -> Piece {
    match v {
        JsonValue::Object(_) => card_object(v, Seq::empty(), 0, 0, true, open, width, th),
        JsonValue::Array(a) => if a@.len() > 0 {
            card_entry(Seq::empty(), v, 0, 0, open, width, th)
        } else {
            just_lines(seq![seq![plain(indent(1), unstyled()), card_value_span_v(v, th)]])
        },
        _ => just_lines(seq![seq![plain(indent(1), unstyled()), card_value_span_v(v, th)]]),
    }
}

pub open spec fn navs_v(v: Seq<NavItem>) -> Seq<(int, Seq<char>)> {
    v.map_values(|n: NavItem| (n.line_index as int, n.path@))
}

/// Renders the interactive view of a JSON value: cards that open and
/// close, and the toggles the cursor can visit.
pub struct CardRenderer {
    pub theme: Theme,
    pub lines: Vec<Line>,
    pub width: usize,
    /// Paths of the nodes that are open.
    pub expanded: Vec<String>,
    pub navigable: Vec<NavItem>,
    pub nesting: usize,
}

/// `new` is `old` with the lines and toggles of `p` added.
pub open spec fn added(old: CardRenderer, new: CardRenderer, p: Piece) -> bool {
    &&& new.theme == old.theme
    &&& new.width == old.width
    &&& new.expanded@ == old.expanded@
    &&& new.nesting == old.nesting
    &&& lines_v(new.lines@) == lines_v(old.lines@) + p.0
    &&& navs_v(new.navigable@) == navs_v(old.navigable@) + p.1
}

pub(crate) proof fn lemma_spans_width(spans: Seq<StyledSpan>)
    ensures
        spans_width(spans_v(spans)) == crate::style::spans_text(spans).len(),
    decreases spans.len(),
{
    if spans.len() > 0 {
        lemma_spans_width(spans.drop_last());
        assert(spans_v(spans).drop_last() =~= spans_v(spans.drop_last()));
    }
}

fn card_width_exec(nesting: usize, width: usize) -> (w: usize)
    ensures
        w == card_width(nesting as int, width as int),
{
    let base = width.saturating_sub(6);
    let step: usize = if nesting <= usize::MAX / 7 { nesting * 7 } else { usize::MAX };
    let w = base.saturating_sub(step);
    if w > 16 { w } else { 16 }
}

fn card_value_span(v: &JsonValue, th: &Theme) -> (sp: StyledSpan)
    ensures
        span_v(sp) == card_value_span_v(*v, *th),
{
    match v {
        JsonValue::Object(_) | JsonValue::Array(_) => {
            let sp = StyledSpan { text: String::new(), style: Style::colors(None, None) };
            proof {
                assert(Style { link_url: None, ..sp.style } == unstyled());
            }
            sp
        },
        _ => value_span(v, th),
    }
}

fn summary_text(v: &JsonValue) -> (s: Vec<char>)
    ensures
        s@ == value_summary(*v),
{
    let mut t: Vec<char> = Vec::new();
    match v {
        JsonValue::Object(m) => {
            push_all(&mut t, &decimal_chars(m.len()));
            push_str(&mut t, " keys");
        },
        JsonValue::Array(a) => {
            push_all(&mut t, &decimal_chars(a.len()));
            push_str(&mut t, " items");
        },
        _ => {},
    }
    proof {
        assert(t@ =~= value_summary(*v));
    }
    t
}

impl CardRenderer {
    fn push_line(&mut self, spans: Vec<StyledSpan>)
        ensures
            added(*old(self), *final(self), just_lines(seq![spans_v(spans@)])),
            final(self).navigable == old(self).navigable,
    {
        let ghost sv = spans_v(spans@);
        self.lines.push(Line { spans });
        proof {
            assert(lines_v(self.lines@) =~= lines_v(old(self).lines@) + seq![sv]);
            assert(navs_v(self.navigable@) =~= navs_v(old(self).navigable@) + Seq::<(int, Seq<char>)>::empty());
        }
    }

    fn emit_blank(&mut self)
        ensures
            added(*old(self), *final(self), just_lines(seq![Seq::<SpanV>::empty()])),
    {
        let spans: Vec<StyledSpan> = Vec::new();
        proof {
            assert(spans_v(spans@) =~= Seq::<SpanV>::empty());
        }
        self.push_line(spans);
    }

    /// Lines drawn by the document renderer, taken over as they are.
    fn take_lines(&mut self, other: JsonRenderer)
        ensures
            added(*old(self), *final(self), just_lines(lines_v(other.lines@))),
    {
        let mut ls = other.lines;
        let ghost lv = lines_v(ls@);
        self.lines.append(&mut ls);
        proof {
            assert(lines_v(self.lines@) =~= lines_v(old(self).lines@) + lv);
            assert(navs_v(self.navigable@) =~= navs_v(old(self).navigable@) + Seq::<(int, Seq<char>)>::empty());
        }
    }

    /// A toggle on the next line, which the cursor can visit.
    fn emit_toggle(&mut self, label: &Vec<char>, summary: &Vec<char>, open: bool, depth: usize, path: String)
        ensures
            added(*old(self), *final(self), (
                seq![toggle_line(label@, summary@, open, depth as nat, old(self).theme)],
                seq![(old(self).lines@.len() as int, path@)],
            )),
    {
        let th = self.theme;
        let mut t: Vec<char> = Vec::new();
        push_indent(&mut t, depth);
        push_str(&mut t, if open { "▼" } else { "▶" });
        push_str(&mut t, " ");
        let mut u: Vec<char> = Vec::new();
        push_str(&mut u, "  ");
        push_all(&mut u, summary);
        let mut spans: Vec<StyledSpan> = Vec::new();
        push_span(&mut spans, styled(&t, strong_style(if open { th.h2 } else { th.json_bracket })));
        push_span(&mut spans, styled(label, strong_style(th.json_key)));
        push_span(&mut spans, styled(&u, faint_style(th.json_null)));
        proof {
            assert(spans_v(spans@) =~= toggle_line(label@, summary@, open, depth as nat, th));
        }
        let ghost p = path@;
        self.navigable.push(NavItem { line_index: self.lines.len(), path });
        proof {
            assert(navs_v(self.navigable@) =~= navs_v(old(self).navigable@) + seq![(old(self).lines@.len() as int, p)]);
        }
        let ghost mid = *self;
        self.lines.push(Line { spans });
        proof {
            assert(lines_v(self.lines@) =~= lines_v(old(self).lines@) + seq![toggle_line(label@, summary@, open, depth as nat, th)]);
        }
    }

    /// Puts the lines from `start` on into a card `w` wide.
    fn wrap_from(&mut self, start: usize, w: usize)
        requires
            start <= old(self).lines@.len(),
        ensures
            final(self).theme == old(self).theme,
            final(self).width == old(self).width,
            final(self).expanded@ == old(self).expanded@,
            final(self).nesting == old(self).nesting,
            final(self).navigable@ == old(self).navigable@,
            lines_v(final(self).lines@) == lines_v(old(self).lines@).take(start as int) + lines_v(old(self).lines@).skip(
                start as int,
            ).map_values(|l: Seq<SpanV>| in_card(l, w as int, old(self).theme)),
    {
        let th = self.theme;
        let ghost before = lines_v(self.lines@);
        let inner = w.saturating_sub(4);
        let mut i = start;
        while i < self.lines.len()
            invariant
                start <= i <= self.lines@.len(),
                self.lines@.len() == before.len(),
                self.theme == th,
                th == old(self).theme,
                self.width == old(self).width,
                self.expanded@ == old(self).expanded@,
                self.nesting == old(self).nesting,
                self.navigable@ == old(self).navigable@,
                before == lines_v(old(self).lines@),
                inner == if w > 4 { w - 4 } else { 0 },
                forall|j: int| 0 <= j < start ==> #[trigger] lines_v(self.lines@)[j] == before[j],
                forall|j: int| start <= j < i ==> #[trigger] lines_v(self.lines@)[j] == in_card(before[j], w as int, th),
                forall|j: int| i <= j < before.len() ==> #[trigger] lines_v(self.lines@)[j] == before[j],
            decreases before.len() - i,
        {
            let dw = self.lines[i].display_width();
            proof {
                lemma_spans_width(self.lines@[i as int].spans@);
                assert(lines_v(self.lines@)[i as int] == spans_v(self.lines@[i as int].spans@));
            }
            let pad = inner.saturating_sub(dw);
            let mut spans: Vec<StyledSpan> = Vec::new();
            push_span(&mut spans, styled_str("  │  ", tinted_style(th.json_bracket)));
            let ghost first = spans_v(spans@);
            let mut k: usize = 0;
            while k < self.lines[i].spans.len()
                invariant
                    i < self.lines@.len(),
                    k <= self.lines@[i as int].spans@.len(),
                    spans_v(spans@) == first + spans_v(self.lines@[i as int].spans@).take(k as int),
                decreases self.lines@[i as int].spans@.len() - k,
            {
                push_span(&mut spans, self.lines[i].spans[k].clone());
                proof {
                    assert(spans_v(self.lines@[i as int].spans@).take(k + 1) =~= spans_v(self.lines@[i as int].spans@).take(
                        k as int,
                    ).push(span_v(self.lines@[i as int].spans@[k as int])));
                    assert(spans_v(spans@) =~= first + spans_v(self.lines@[i as int].spans@).take(k + 1));
                }
                k = k + 1;
            }
            let mut tail: Vec<char> = Vec::new();
            push_repeated(&mut tail, ' ', pad);
            push_str(&mut tail, "│");
            push_span(&mut spans, styled(&tail, tinted_style(th.json_bracket)));
            proof {
                assert(spans_v(self.lines@[i as int].spans@).take(self.lines@[i as int].spans@.len() as int)
                    =~= spans_v(self.lines@[i as int].spans@));
                assert(spans_v(spans@) =~= in_card(before[i as int], w as int, th));
            }
            let ghost prev = self.lines@;
            self.lines.set(i, Line { spans });
            proof {
                assert forall|j: int| 0 <= j < before.len() && j != i implies #[trigger] lines_v(self.lines@)[j] == lines_v(prev)[j] by {
                    assert(self.lines@[j] == prev[j]);
                }
            }
            i = i + 1;
        }
        proof {
            assert(lines_v(self.lines@) =~= before.take(start as int) + before.skip(start as int).map_values(
                |l: Seq<SpanV>| in_card(l, w as int, th)));
        }
    }
}

fn card_table_room_exec(nesting: usize, width: usize) -> (r: usize)
    ensures
        r == card_table_room(nesting as int, width as int),
{
    card_width_exec(nesting.saturating_sub(1), width).saturating_sub(8)
}

/// The path of an entry's value; see [`entry_path`].
fn entry_path_of(path: &String, key: &String, top: bool) -> (p: String)
    ensures
        p@ == entry_path(path@, key@, top),
{
    if top {
        key.clone()
    } else {
        let mut t = chars_of(path.as_str());
        t.push('.');
        push_str(&mut t, key.as_str());
        proof {
            assert(t@ =~= path@ + "."@ + key@) by {
                reveal_strlit(".");
            }
        }
        string_of(&t)
    }
}

/// The path of an item; see [`item_path`].
fn item_path_of(path: &String, index: usize) -> (p: String)
    ensures
        p@ == item_path(path@, index as nat),
{
    let mut t = chars_of(path.as_str());
    push_str(&mut t, "[");
    push_all(&mut t, &decimal_chars(index));
    push_str(&mut t, "]");
    proof {
        assert(t@ =~= item_path(path@, index as nat));
    }
    string_of(&t)
}

impl CardRenderer {
    pub open spec fn open_paths(&self) -> Seq<Seq<char>> {
        texts_v(self.expanded@)
    }

    fn is_open(&self, p: &String) -> (b: bool)
        ensures
            b == self.open_paths().contains(p@),
    {
        contains_text(&self.expanded, p)
    }

    fn emit_border(&mut self, left: char, right: char, w: usize)
        requires
            w >= 2,
        ensures
            added(*old(self), *final(self), just_lines(seq![card_border(left, right, w as int, old(self).theme)])),
    {
        let th = self.theme;
        let mut t: Vec<char> = Vec::new();
        push_str(&mut t, "  ");
        t.push(left);
        push_repeated(&mut t, '─', w - 2);
        t.push(right);
        let mut spans: Vec<StyledSpan> = Vec::new();
        push_span(&mut spans, styled(&t, tinted_style(th.json_bracket)));
        proof {
            assert(t@ =~= "  "@ + seq![left] + repeated('─', (w - 2) as nat) + seq![right]);
            assert(spans_v(spans@) =~= card_border(left, right, w as int, th));
        }
        self.push_line(spans);
    }

    /// A card around the content of `c`; see [`card_entry`].
    fn render_card(&mut self, path: &String, c: &JsonValue)
        requires
            tables_clean(*c),
        ensures
            added(*old(self), *final(self), card_entry(path@, *c, old(self).nesting as nat, old(self).lines@.len() as int,
                old(self).open_paths(), old(self).width as nat, old(self).theme)),
        decreases c, kids(*c) + 3,
    {
        let th = self.theme;
        let n0 = self.nesting;
        let w = card_width_exec(n0, self.width);
        let ghost s0 = *self;
        self.emit_border('╭', '╮', w);
        let start = self.lines.len();
        self.nesting = deeper_exec(n0);
        let ghost s1 = *self;
        self.render_content(path, c);
        proof {
            assert(lines_v(s1.lines@).len() == start);
            assert(lines_v(self.lines@).len() == self.lines@.len());
        }
        let ghost content = card_value(*c, path@, deeper(n0 as nat), start as int, s0.open_paths(), s0.width as nat, th);
        self.nesting = n0;
        let ghost s2 = *self;
        self.wrap_from(start, w);
        let ghost s3 = *self;
        self.emit_border('╰', '╯', w);
        proof {
            let top = lines_v(s0.lines@) + seq![card_border('╭', '╮', w as int, th)];
            assert(lines_v(s2.lines@) =~= top + content.0);
            assert(lines_v(s2.lines@).take(start as int) =~= top);
            assert(lines_v(s2.lines@).skip(start as int) =~= content.0);
            assert(lines_v(self.lines@) =~= lines_v(s0.lines@) + card_entry(path@, *c, n0 as nat, s0.lines@.len() as int,
                s0.open_paths(), s0.width as nat, th).0);
            assert(navs_v(self.navigable@) =~= navs_v(s0.navigable@) + card_entry(path@, *c, n0 as nat, s0.lines@.len() as int,
                s0.open_paths(), s0.width as nat, th).1);
        }
    }

    /// A container's content; see [`card_value`].
    fn render_content(&mut self, path: &String, v: &JsonValue)
        requires
            tables_clean(*v),
        ensures
            added(*old(self), *final(self), card_value(*v, path@, old(self).nesting as nat, old(self).lines@.len() as int,
                old(self).open_paths(), old(self).width as nat, old(self).theme)),
        decreases v, kids(*v) + 2,
    {
        match v {
            JsonValue::Object(_) => self.render_object_cards(path, v, false),
            JsonValue::Array(_) => self.render_array_cards(path, v),
            _ => {
                proof {
                    assert(lines_v(self.lines@) =~= lines_v(old(self).lines@) + Seq::<Seq<SpanV>>::empty());
                    assert(navs_v(self.navigable@) =~= navs_v(old(self).navigable@) + Seq::<(int, Seq<char>)>::empty());
                }
            },
        }
    }

    /// An object's entries and toggles; see [`card_object`].
    fn render_object_cards(&mut self, path: &String, v: &JsonValue, top: bool)
        requires
            v is Object,
            tables_clean(*v),
        ensures
            added(*old(self), *final(self), card_object(*v, path@, old(self).nesting as nat, old(self).lines@.len() as int, top,
                old(self).open_paths(), old(self).width as nat, old(self).theme)),
        decreases v, kids(*v) + 1,
    {
        let th = self.theme;
        let ghost open = self.open_paths();
        let ghost width = self.width as nat;
        let ghost n = self.nesting as nat;
        match v {
            JsonValue::Object(m) => {
                let depth: usize = if top { 1 } else { 0 };
                let (align, any_simple) = simple_layout(m);
                let mut t = JsonRenderer { theme: th, lines: Vec::new(), width: self.width };
                proof {
                    assert(lines_v(t.lines@) =~= Seq::<Seq<SpanV>>::empty());
                }
                t.emit_simple_entries(m, depth, align);
                proof {
                    assert(lines_v(t.lines@) =~= simple_lines(m@, 0, depth as nat, align as nat, th));
                }
                let ghost s0 = *self;
                self.take_lines(t);
                let ghost mid = *self;
                let mut sep = any_simple;
                let mut i: usize = 0;
                while i < m.len()
                    invariant
                        *v == JsonValue::Object(*m),
                        tables_clean(*v),
                        i <= m@.len(),
                        depth == (if top { 1usize } else { 0usize }),
                        self.theme == th,
                        mid.theme == th,
                        self.width == mid.width,
                        width == mid.width,
                        self.expanded@ == mid.expanded@,
                        open == mid.open_paths(),
                        self.nesting == mid.nesting,
                        n == mid.nesting,
                        lines_v(self.lines@) + card_sections(*v, i as int, path@, n, self.lines@.len() as int, sep, top, open, width, th).0
                            == lines_v(mid.lines@) + card_sections(*v, 0, path@, n, mid.lines@.len() as int, any_simple, top, open, width, th).0,
                        navs_v(self.navigable@) + card_sections(*v, i as int, path@, n, self.lines@.len() as int, sep, top, open, width, th).1
                            == navs_v(mid.navigable@) + card_sections(*v, 0, path@, n, mid.lines@.len() as int, any_simple, top, open, width, th).1,
                    decreases m@.len() - i,
                {
                    let ghost b0 = *self;
                    let ghost sep0 = sep;
                    if !is_primitive_or_empty(&m[i].1) {
                        if sep {
                            self.emit_blank();
                        }
                        let ghost b1 = *self;
                        let cp = entry_path_of(path, &m[i].0, top);
                        let is_open = self.is_open(&cp);
                        let label = chars_of(m[i].0.as_str());
                        let summary = summary_text(&m[i].1);
                        self.emit_toggle(&label, &summary, is_open, depth, cp.clone());
                        let ghost b2 = *self;
                        if is_open {
                            proof {
                                lemma_children_clean(*v, 0, i as int);
                                assert(decreases_to!(*m => m@[i as int]));
                                assert(decreases_to!(*v => (*v)->Object_0));
                                assert(decreases_to!(*v => m@[i as int].1));
                            }
                            self.render_card(&cp, &m[i].1);
                        }
                        sep = true;
                        proof {
                            let at = b1.lines@.len() as int;
                            let blank: Seq<Seq<SpanV>> = if sep0 { seq![Seq::<SpanV>::empty()] } else { Seq::empty() };
                            assert(at == b0.lines@.len() + blank.len());
                            let inner = if is_open {
                                card_entry(cp@, m@[i as int].1, n, at + 1, open, width, th)
                            } else {
                                just_lines(Seq::empty())
                            };
                            let toggle: Piece = (
                                seq![toggle_line(m@[i as int].0@, value_summary(m@[i as int].1), is_open, depth as nat, th)],
                                seq![(at, cp@)],
                            );
                            let here = join(join(just_lines(blank), toggle), inner);
                            assert(lines_v(self.lines@) =~= lines_v(b0.lines@) + here.0);
                            assert(navs_v(self.navigable@) =~= navs_v(b0.navigable@) + here.1);
                            assert(card_sections(*v, i as int, path@, n, b0.lines@.len() as int, sep0, top, open, width, th)
                                == join(here, card_sections(*v, i + 1, path@, n, (b0.lines@.len() + here.0.len()) as int, true, top, open, width, th)));
                            assert(lines_v(self.lines@) + card_sections(*v, i + 1, path@, n, self.lines@.len() as int, sep, top, open, width, th).0
                                =~= lines_v(b0.lines@) + card_sections(*v, i as int, path@, n, b0.lines@.len() as int, sep0, top, open, width, th).0);
                            assert(navs_v(self.navigable@) + card_sections(*v, i + 1, path@, n, self.lines@.len() as int, sep, top, open, width, th).1
                                =~= navs_v(b0.navigable@) + card_sections(*v, i as int, path@, n, b0.lines@.len() as int, sep0, top, open, width, th).1);
                        }
                    }
                    i = i + 1;
                }
                proof {
                    let rest = card_sections(*v, m@.len() as int, path@, n, self.lines@.len() as int, sep, top, open, width, th);
                    assert(rest.0 =~= Seq::<Seq<SpanV>>::empty());
                    assert(rest.1 =~= Seq::<(int, Seq<char>)>::empty());
                    let whole = card_object(*v, path@, n, s0.lines@.len() as int, top, open, width, th);
                    assert(lines_v(self.lines@) =~= lines_v(s0.lines@) + whole.0);
                    assert(navs_v(self.navigable@) =~= navs_v(s0.navigable@) + whole.1);
                }
            },
            _ => {},
        }
    }
}

impl CardRenderer {
    /// An array's items; see [`card_array`].
    fn render_array_cards(&mut self, path: &String, v: &JsonValue)
        requires
            v is Array,
            tables_clean(*v),
        ensures
            added(*old(self), *final(self), card_array(*v, path@, old(self).nesting as nat, old(self).lines@.len() as int,
                old(self).open_paths(), old(self).width as nat, old(self).theme)),
        decreases v, kids(*v) + 1,
    {
        let th = self.theme;
        let ghost open = self.open_paths();
        let ghost width = self.width as nat;
        let ghost n = self.nesting as nat;
        let ghost s0 = *self;
        match v {
            JsonValue::Array(a) => {
                if a.len() == 0 {
                    proof {
                        assert(lines_v(self.lines@) =~= lines_v(old(self).lines@) + Seq::<Seq<SpanV>>::empty());
                        assert(navs_v(self.navigable@) =~= navs_v(old(self).navigable@) + Seq::<(int, Seq<char>)>::empty());
                    }
                    return;
                }
                if should_render_as_table(a) {
                    let room = card_table_room_exec(self.nesting, self.width);
                    let mut t = JsonRenderer { theme: th, lines: Vec::new(), width: self.width };
                    proof {
                        assert(lines_v(t.lines@) =~= Seq::<Seq<SpanV>>::empty());
                    }
                    proof {
                        lemma_objects_all(a@);
                    }
                    t.render_table(a, 0, room);
                    proof {
                        assert(lines_v(t.lines@) =~= table_lines(a@, 0, room as nat, th));
                    }
                    self.take_lines(t);
                    return;
                }
                if all_simple_items(a) {
                    let mut i: usize = 0;
                    while i < a.len()
                        invariant
                            i <= a@.len(),
                            self.theme == th,
                            s0.theme == th,
                            self.width == s0.width,
                            self.expanded@ == s0.expanded@,
                            self.nesting == s0.nesting,
                            self.navigable@ == s0.navigable@,
                            lines_v(self.lines@) + card_bullets(a@, i as int, th) == lines_v(s0.lines@) + card_bullets(a@, 0, th),
                        decreases a@.len() - i,
                    {
                        let ghost before = lines_v(self.lines@);
                        let mut spans: Vec<StyledSpan> = Vec::new();
                        push_span(&mut spans, styled_str("• ", faint_style(th.json_bracket)));
                        push_span(&mut spans, card_value_span(&a[i], &th));
                        proof {
                            assert(spans_v(spans@) =~= card_bullet_line(a@[i as int], th));
                        }
                        self.push_line(spans);
                        proof {
                            assert(lines_v(self.lines@) + card_bullets(a@, i + 1, th) =~= before + card_bullets(a@, i as int, th));
                        }
                        i = i + 1;
                    }
                    proof {
                        assert(card_bullets(a@, a@.len() as int, th) =~= Seq::<Seq<SpanV>>::empty());
                        assert(lines_v(self.lines@) =~= lines_v(s0.lines@) + card_bullets(a@, 0, th));
                        assert(navs_v(self.navigable@) =~= navs_v(s0.navigable@) + Seq::<(int, Seq<char>)>::empty());
                    }
                    return;
                }
                let mut prev = false;
                let mut i: usize = 0;
                while i < a.len()
                    invariant
                        *v == JsonValue::Array(*a),
                        tables_clean(*v),
                        i <= a@.len(),
                        self.theme == th,
                        s0.theme == th,
                        self.width == s0.width,
                        width == s0.width,
                        self.expanded@ == s0.expanded@,
                        open == s0.open_paths(),
                        self.nesting == s0.nesting,
                        n == s0.nesting,
                        lines_v(self.lines@) + card_items(*v, i as int, prev, path@, n, self.lines@.len() as int, open, width, th).0
                            == lines_v(s0.lines@) + card_items(*v, 0, false, path@, n, s0.lines@.len() as int, open, width, th).0,
                        navs_v(self.navigable@) + card_items(*v, i as int, prev, path@, n, self.lines@.len() as int, open, width, th).1
                            == navs_v(s0.navigable@) + card_items(*v, 0, false, path@, n, s0.lines@.len() as int, open, width, th).1,
                    decreases a@.len() - i,
                {
                    let ghost b0 = *self;
                    let ghost prev0 = prev;
                    let complex = !is_primitive_or_empty(&a[i]);
                    if i > 0 && (complex || prev) {
                        self.emit_blank();
                    }
                    let ghost b1 = *self;
                    let ip = item_path_of(path, i);
                    let mut is_open = false;
                    if complex {
                        is_open = self.is_open(&ip);
                        let mut label: Vec<char> = Vec::new();
                        push_str(&mut label, "[");
                        push_all(&mut label, &decimal_chars(i));
                        push_str(&mut label, "]");
                        let summary = summary_text(&a[i]);
                        self.emit_toggle(&label, &summary, is_open, 0, ip.clone());
                        if is_open {
                            proof {
                                lemma_children_clean(*v, 0, i as int);
                                assert(decreases_to!(*a => a@[i as int]));
                                assert(decreases_to!(*v => (*v)->Array_0));
                                assert(decreases_to!(*v => a@[i as int]));
                            }
                            self.render_card(&ip, &a[i]);
                        }
                    } else {
                        let mut t: Vec<char> = Vec::new();
                        push_str(&mut t, "[");
                        push_all(&mut t, &decimal_chars(i));
                        push_str(&mut t, "]");
                        push_str(&mut t, " ");
                        proof {
                            assert(indent(0) =~= Seq::<char>::empty());
                        }
                        let mut spans: Vec<StyledSpan> = Vec::new();
                        push_span(&mut spans, styled(&t, tinted_style(th.json_bracket)));
                        push_span(&mut spans, card_value_span(&a[i], &th));
                        proof {
                            assert(t@ =~= index_text(0, i as nat) + " "@);
                            assert(spans_v(spans@) =~= card_indexed_line(i as nat, a@[i as int], th));
                        }
                        self.push_line(spans);
                    }
                    prev = complex;
                    proof {
                        let at = b1.lines@.len() as int;
                        let blank: Seq<Seq<SpanV>> = if i > 0 && (complex || prev0) { seq![Seq::<SpanV>::empty()] } else { Seq::empty() };
                        assert(at == b0.lines@.len() + blank.len());
                        let item = a@[i as int];
                        let body: Piece = if complex {
                            join(
                                (seq![toggle_line("["@ + decimal(i as nat) + "]"@, value_summary(item), is_open, 0, th)], seq![(at, ip@)]),
                                if is_open { card_entry(ip@, item, n, at + 1, open, width, th) } else { just_lines(Seq::empty()) },
                            )
                        } else {
                            just_lines(seq![card_indexed_line(i as nat, item, th)])
                        };
                        let here = join(just_lines(blank), body);
                        assert(lines_v(self.lines@) =~= lines_v(b0.lines@) + here.0);
                        assert(navs_v(self.navigable@) =~= navs_v(b0.navigable@) + here.1);
                        assert(card_items(*v, i as int, prev0, path@, n, b0.lines@.len() as int, open, width, th)
                            == join(here, card_items(*v, i + 1, complex, path@, n, (b0.lines@.len() + here.0.len()) as int, open, width, th)));
                        assert(lines_v(self.lines@) + card_items(*v, i + 1, prev, path@, n, self.lines@.len() as int, open, width, th).0
                            =~= lines_v(b0.lines@) + card_items(*v, i as int, prev0, path@, n, b0.lines@.len() as int, open, width, th).0);
                        assert(navs_v(self.navigable@) + card_items(*v, i + 1, prev, path@, n, self.lines@.len() as int, open, width, th).1
                            =~= navs_v(b0.navigable@) + card_items(*v, i as int, prev0, path@, n, b0.lines@.len() as int, open, width, th).1);
                    }
                    i = i + 1;
                }
                proof {
                    let rest = card_items(*v, a@.len() as int, prev, path@, n, self.lines@.len() as int, open, width, th);
                    assert(rest.0 =~= Seq::<Seq<SpanV>>::empty());
                    assert(rest.1 =~= Seq::<(int, Seq<char>)>::empty());
                    let whole = card_array(*v, path@, n, s0.lines@.len() as int, open, width, th);
                    assert(lines_v(self.lines@) =~= lines_v(s0.lines@) + whole.0);
                    assert(navs_v(self.navigable@) =~= navs_v(s0.navigable@) + whole.1);
                }
            },
            _ => {},
        }
    }
}

fn clone_paths(v: &Vec<String>) -> (r: Vec<String>)
    ensures
        texts_v(r@) == texts_v(v@),
{
    let mut r: Vec<String> = Vec::new();
    let mut i: usize = 0;
    while i < v.len()
        invariant
            i <= v@.len(),
            r@.len() == i,
            texts_v(r@) == texts_v(v@).take(i as int),
        decreases v@.len() - i,
    {
        let ghost before = r@;
        let p = v[i].clone();
        assert(p@ == v@[i as int]@);
        r.push(p);
        proof {
            assert(r@ == before.push(p));
            assert(texts_v(r@) =~= texts_v(v@).take(i + 1)) by {
                assert forall|j: int| 0 <= j < i + 1 implies texts_v(r@)[j] == texts_v(v@).take(i + 1)[j] by {
                    if j < i {
                        assert(texts_v(r@)[j] == texts_v(before)[j]);
                    }
                }
            }
        }
        i = i + 1;
    }
    proof {
        assert(texts_v(v@).take(v@.len() as int) =~= texts_v(v@));
    }
    r
}

/// Renders the interactive view of a JSON document: the top-level entries,
/// with a toggle for each nested container and a card under each open one
/// (see [`card_document`]), and the toggles the cursor can visit; or, when
/// the document did not parse, the report of the error and no toggles.
pub fn render_interactive_parsed(
    parsed: &Result<JsonValue, JsonError>,
    input: &str,
    width: usize,
    theme: &Theme,
    expanded: &Vec<String>,
) -> (r: (Vec<Line>, Vec<NavItem>))
    requires
        *parsed matches Ok(v) ==> tables_clean(v),
    ensures
        match *parsed {
            Ok(v) => {
                &&& lines_v(r.0@) == card_document(v, texts_v(expanded@), width as nat, *theme).0
                &&& navs_v(r.1@) == card_document(v, texts_v(expanded@), width as nat, *theme).1
            },
            Err(e) => lines_v(r.0@) == error_lines(input@, e, width as nat, *theme) && r.1@.len() == 0,
        },
{
    match parsed {
        Ok(v) => {
            let mut c = CardRenderer {
                theme: *theme,
                lines: Vec::new(),
                width,
                expanded: clone_paths(expanded),
                navigable: Vec::new(),
                nesting: 0,
            };
            let ghost c0 = c;
            proof {
                assert(lines_v(c.lines@) =~= Seq::<Seq<SpanV>>::empty());
                assert(navs_v(c.navigable@) =~= Seq::<(int, Seq<char>)>::empty());
            }
            let root = String::new();
            match v {
                JsonValue::Object(_) => c.render_object_cards(&root, v, true),
                JsonValue::Array(a) if a.len() > 0 => c.render_card(&root, v),
                _ => {
                    let mut t: Vec<char> = Vec::new();
                    push_indent(&mut t, 1);
                    let mut spans: Vec<StyledSpan> = Vec::new();
                    push_span(&mut spans, styled(&t, Style::colors(None, None)));
                    push_span(&mut spans, card_value_span(v, theme));
                    proof {
                        assert(spans_v(spans@) =~= seq![plain(indent(1), unstyled()), card_value_span_v(*v, *theme)]);
                    }
                    c.push_line(spans);
                },
            }
            proof {
                assert(lines_v(c.lines@) =~= card_document(*v, texts_v(expanded@), width as nat, *theme).0);
                assert(navs_v(c.navigable@) =~= card_document(*v, texts_v(expanded@), width as nat, *theme).1);
            }
            (c.lines, c.navigable)
        },
        Err(_) => {
            let lines = render_parsed(parsed, input, width, theme);
            (lines, Vec::new())
        },
    }
}
/// Parses `input` with serde_json and renders it as the explorer shows it
/// (see [`render_interactive_parsed`]); `None` where what was parsed cannot
/// be drawn (see [`drawable`]).
pub fn render_interactive(input: &str, width: usize, theme: &Theme, expanded: &Vec<String>) -> (r: Option<
    (Vec<Line>, Vec<NavItem>),
>)
    ensures
        r is Some <==> drawable(json_parsed(input@)),
        r matches Some(p) ==> match json_parsed(input@) {
            Ok(v) => {
                &&& lines_v(p.0@) == card_document(v, texts_v(expanded@), width as nat, *theme).0
                &&& navs_v(p.1@) == card_document(v, texts_v(expanded@), width as nat, *theme).1
            },
            Err(e) => lines_v(p.0@) == error_lines(input@, e, width as nat, *theme) && p.1@.len() == 0,
        },
{
    let parsed = parse_json(input);
    if !is_drawable(&parsed) {
        return None;
    }
    Some(render_interactive_parsed(&parsed, input, width, theme, expanded))
}

/// An array item's path extends its parent's: the parent's path, then
/// `[index]`; so items of different arrays, and different items of one
/// array, never share a path.
pub proof fn lemma_item_path_extends(path: Seq<char>, index: nat, other: Seq<char>, other_index: nat)
    ensures
        item_path(path, index).len() > path.len(),
        item_path(path, index).subrange(0, path.len() as int) == path,
        item_path(path, index) == item_path(other, other_index) ==> path == other && index == other_index,
{
    reveal_strlit("[");
    reveal_strlit("]");
    let x = item_path(path, index);
    assert(x.subrange(0, path.len() as int) =~= path);
    if x == item_path(other, other_index) {
        lemma_item_suffix(path, index);
        lemma_item_suffix(other, other_index);
        let kp = path.len() as int;
        let ko = other.len() as int;
        // the last '[' of the path sits right after the parent's path
        assert(x[kp] == '[');
        assert(x[ko] == '[');
        if kp < ko {
            assert(x[ko] == decimal(index)[ko - kp - 1]);
        } else if ko < kp {
            assert(x[kp] == decimal(other_index)[kp - ko - 1]);
        }
        assert(path =~= x.subrange(0, kp));
        assert(other =~= x.subrange(0, ko));
        assert(decimal(index) =~= x.subrange(kp + 1, x.len() - 1));
        assert(decimal(other_index) =~= x.subrange(ko + 1, x.len() - 1));
        lemma_decimal_injective(index, other_index);
    }
}

proof fn lemma_item_suffix(path: Seq<char>, index: nat)
    ensures
        ({
            let x = item_path(path, index);
            let k = path.len() as int;
            &&& x.len() == k + decimal(index).len() + 2
            &&& x[k] == '['
            &&& x[x.len() - 1] == ']'
            &&& forall|j: int| k < j < x.len() - 1 ==> x[j] == #[trigger] decimal(index)[j - k - 1]
            &&& forall|j: int| 0 <= j < decimal(index).len() ==> #[trigger] decimal(index)[j] != '['
        }),
{
    reveal_strlit("[");
    reveal_strlit("]");
    lemma_decimal_digits(index);
}

proof fn lemma_decimal_digits(n: nat)
    ensures
        decimal(n).len() >= 1,
        forall|j: int| 0 <= j < decimal(n).len() ==> '0' <= #[trigger] decimal(n)[j] <= '9',
    decreases n,
{
    if n >= 10 {
        lemma_decimal_digits(n / 10);
        let d = decimal(n / 10);
        assert forall|j: int| 0 <= j < decimal(n).len() implies '0' <= #[trigger] decimal(n)[j] <= '9' by {
            if j < d.len() {
                assert(decimal(n)[j] == d[j]);
            }
        }
    }
}

proof fn lemma_decimal_injective(a: nat, b: nat)
    requires
        decimal(a) == decimal(b),
    ensures
        a == b,
    decreases a,
{
    if a >= 10 && b >= 10 {
        lemma_decimal_digits(a / 10);
        lemma_decimal_digits(b / 10);
        assert(decimal(a).drop_last() =~= decimal(a / 10));
        assert(decimal(b).drop_last() =~= decimal(b / 10));
        lemma_decimal_injective(a / 10, b / 10);
        assert(decimal(a).last() == digit_char(a % 10));
        assert(decimal(b).last() == digit_char(b % 10));
        lemma_digit_char_injective(a % 10, b % 10);
    } else if a >= 10 {
        lemma_decimal_digits(a / 10);
        assert(decimal(a).len() == decimal(a / 10).len() + 1);
    } else if b >= 10 {
        lemma_decimal_digits(b / 10);
        assert(decimal(b).len() == decimal(b / 10).len() + 1);
    } else {
        assert(decimal(a)[0] == digit_char(a));
        assert(decimal(b)[0] == digit_char(b));
        lemma_digit_char_injective(a, b);
    }
}

proof fn lemma_digit_char_injective(x: nat, y: nat)
    requires
        x < 10,
        y < 10,
        digit_char(x) == digit_char(y),
    ensures
        x == y,
{
}

/// An object entry's path extends its parent's: below the top it is the
/// parent's path, a dot and the key; at the top it is the key alone. Two
/// entries under one parent share a path only when their keys are equal.
pub proof fn lemma_entry_path_extends(path: Seq<char>, key: Seq<char>, other: Seq<char>)
    ensures
        entry_path(path, key, false).subrange(0, path.len() as int) == path,
        entry_path(path, key, false).len() == path.len() + 1 + key.len(),
        entry_path(path, key, false)[path.len() as int] == '.',
        entry_path(path, key, false).subrange(path.len() + 1int, path.len() + 1int + key.len()) == key,
        entry_path(path, key, true) == key,
        entry_path(path, key, false) == entry_path(path, other, false) ==> key == other,
        entry_path(path, key, true) == entry_path(path, other, true) ==> key == other,
{
    reveal_strlit(".");
    let x = entry_path(path, key, false);
    assert(x.subrange(0, path.len() as int) =~= path);
    assert(x.subrange(path.len() + 1int, path.len() + 1int + key.len()) =~= key);
    if x == entry_path(path, other, false) {
        let y = entry_path(path, other, false);
        assert(y.subrange(path.len() + 1int, y.len() as int) =~= other);
        assert(x.subrange(path.len() + 1int, x.len() as int) =~= key);
    }
}

/// Simple entries of one object line up: with keys of narrow text no wider
/// than the alignment, every `key: ` part is as long, so the values start
/// in one column; each part starts with the indent and the key and a colon.
pub proof fn lemma_values_line_up(k1: Seq<char>, k2: Seq<char>, v1: JsonValue, v2: JsonValue, depth: nat, align: nat, th: Theme)
    requires
        narrow_text(k1),
        narrow_text(k2),
        k1.len() <= align,
        k2.len() <= align,
    ensures
        kv_line(k1, v1, depth, align, th)[0].0.len() == indent(depth).len() + align + 2,
        kv_line(k1, v1, depth, align, th)[0].0.len() == kv_line(k2, v2, depth, align, th)[0].0.len(),
        kv_line(k1, v1, depth, align, th)[0].0.subrange(0, indent(depth).len() + k1.len() + 1int) == indent(depth) + k1 + ":"@,
{
    reveal_strlit(":");
    reveal_strlit(" ");
    let t = kv_line(k1, v1, depth, align, th)[0].0;
    assert(t == indent(depth) + k1 + ":"@ + repeated(' ', (align - k1.len()) as nat) + " "@);
    assert(t.subrange(0, indent(depth).len() + k1.len() + 1int) =~= indent(depth) + k1 + ":"@);
    let u = kv_line(k2, v2, depth, align, th)[0].0;
    assert(u == indent(depth) + k2 + ":"@ + repeated(' ', (align - k2.len()) as nat) + " "@);
}

} // verus!
