//! Character and string helpers shared by the rest of the library.
//!
//! Text is handled as sequences of Unicode scalar values (`Seq<char>`), the
//! view that vstd gives `str` and `String`.
use vstd::prelude::*;

verus! {

/// Unicode `White_Space`, the property `char::is_whitespace` tests.
pub open spec fn is_ws(c: char) -> bool {
    ||| ('\u{9}' <= c && c <= '\u{d}')
    ||| c == ' '
    ||| c == '\u{85}'
    ||| c == '\u{a0}'
    ||| c == '\u{1680}'
    ||| ('\u{2000}' <= c && c <= '\u{200a}')
    ||| c == '\u{2028}'
    ||| c == '\u{2029}'
    ||| c == '\u{202f}'
    ||| c == '\u{205f}'
    ||| c == '\u{3000}'
}

pub fn is_whitespace(c: char) -> (b: bool)
    ensures
        b == is_ws(c),
{
    ('\u{9}' <= c && c <= '\u{d}') || c == ' ' || c == '\u{85}' || c == '\u{a0}' || c
        == '\u{1680}' || ('\u{2000}' <= c && c <= '\u{200a}') || c == '\u{2028}' || c
        == '\u{2029}' || c == '\u{202f}' || c == '\u{205f}' || c == '\u{3000}'
}

/// Whether `char::is_alphanumeric` holds of a character: it is Unicode
/// `Alphabetic` or `Numeric`.
pub uninterp spec fn unicode_alphanumeric(c: char) -> bool;

/// `char::is_alphanumeric`. Of its result only the ASCII part is stated:
/// there, exactly the ASCII letters and digits are alphanumeric; the Unicode
/// tables behind the rest are left unsaid.
#[verifier::external_body]
pub fn is_alphanumeric(c: char) -> (b: bool)
    ensures
        b == unicode_alphanumeric(c),
        (c as u32) < 128 ==> (b == is_ascii_alnum(c)),
{
    c.is_alphanumeric()
}


pub open spec fn is_ascii_upper(c: char) -> bool {
    'A' <= c && c <= 'Z'
}

pub open spec fn is_ascii_alnum(c: char) -> bool {
    ||| ('a' <= c && c <= 'z')
    ||| ('A' <= c && c <= 'Z')
    ||| ('0' <= c && c <= '9')
}

/// The ASCII lower-case form of `c`; every other character maps to itself.
pub open spec fn ascii_lower(c: char) -> char {
    if is_ascii_upper(c) {
        ((c as u32) + 32) as char
    } else {
        c
    }
}

pub fn to_ascii_lower(c: char) -> (r: char)
    ensures
        r == ascii_lower(c),
{
    if 'A' <= c && c <= 'Z' {
        let u: u32 = c as u32;
        char_from_ascii_upper(u + 32)
    } else {
        c
    }
}

fn char_from_ascii_upper(u: u32) -> (c: char)
    requires
        97 <= u <= 122,
    ensures
        c == u as char,
{
    // `u` lies in the ASCII range, where every value is a scalar value.
    let b: u8 = u as u8;
    b as char
}

/// Two texts that are equal once ASCII letters are folded to lower case.
pub open spec fn eq_ignore_ascii_case(a: Seq<char>, b: Seq<char>) -> bool {
    &&& a.len() == b.len()
    &&& forall|i: int| 0 <= i < a.len() ==> #[trigger] ascii_lower(a[i]) == ascii_lower(b[i])
}

pub fn chars_eq_ignore_ascii_case(a: &Vec<char>, b: &Vec<char>) -> (r: bool)
    ensures
        r == eq_ignore_ascii_case(a@, b@),
{
    if a.len() != b.len() {
        return false;
    }
    let mut i: usize = 0;
    while i < a.len()
        invariant
            a.len() == b.len(),
            i <= a.len(),
            forall|j: int| 0 <= j < i ==> #[trigger] ascii_lower(a@[j]) == ascii_lower(b@[j]),
        decreases a.len() - i,
    {
        if to_ascii_lower(a[i]) != to_ascii_lower(b[i]) {
            return false;
        }
        i = i + 1;
    }
    true
}

// ───── whitespace trimming ─────

/// `i` is where the text stops starting with whitespace.
pub open spec fn is_ws_lead(s: Seq<char>, i: int) -> bool {
    &&& 0 <= i <= s.len()
    &&& forall|j: int| 0 <= j < i ==> #[trigger] is_ws(s[j])
    &&& i < s.len() ==> !is_ws(s[i])
}

/// `i` is where the trailing whitespace of the text begins.
pub open spec fn is_ws_tail(s: Seq<char>, i: int) -> bool {
    &&& 0 <= i <= s.len()
    &&& forall|j: int| i <= j < s.len() ==> #[trigger] is_ws(s[j])
    &&& i > 0 ==> !is_ws(s[i - 1])
}

/// Number of leading whitespace characters.
pub open spec fn ws_lead(s: Seq<char>) -> int {
    choose|i: int| is_ws_lead(s, i)
}

/// Index at which the trailing whitespace begins.
pub open spec fn ws_tail(s: Seq<char>) -> int {
    choose|i: int| is_ws_tail(s, i)
}

pub open spec fn trim_start(s: Seq<char>) -> Seq<char> {
    s.skip(ws_lead(s))
}

pub open spec fn trim_end(s: Seq<char>) -> Seq<char> {
    s.take(ws_tail(s))
}

/// `str::trim`: the text without leading and trailing whitespace.
pub open spec fn trim(s: Seq<char>) -> Seq<char> {
    trim_end(trim_start(s))
}

pub proof fn lemma_ws_lead_unique(s: Seq<char>, i: int)
    requires
        is_ws_lead(s, i),
    ensures
        ws_lead(s) == i,
{
    let k = ws_lead(s);
    assert(is_ws_lead(s, k));
    if k < i {
        assert(is_ws(s[k]));
    } else if i < k {
        assert(is_ws(s[i]));
    }
}

pub proof fn lemma_ws_tail_unique(s: Seq<char>, i: int)
    requires
        is_ws_tail(s, i),
    ensures
        ws_tail(s) == i,
{
    let k = ws_tail(s);
    assert(is_ws_tail(s, k));
    if k < i {
        assert(is_ws(s[i - 1]));
    } else if i < k {
        assert(is_ws(s[k - 1]));
    }
}

/// The number of leading whitespace characters of `s[from..]`, plus `from`.
pub fn skip_ws(s: &Vec<char>, from: usize) -> (i: usize)
    requires
        from <= s.len(),
    ensures
        from <= i <= s.len(),
        forall|j: int| from <= j < i ==> #[trigger] is_ws(s@[j]),
        i < s.len() ==> !is_ws(s@[i as int]),
{
    let mut i = from;
    while i < s.len() && is_whitespace(s[i])
        invariant
            from <= i <= s.len(),
            forall|j: int| from <= j < i ==> #[trigger] is_ws(s@[j]),
        decreases s.len() - i,
    {
        i = i + 1;
    }
    i
}

/// End of the run of non-whitespace characters that starts at `from`.
pub fn skip_non_ws(s: &Vec<char>, from: usize) -> (i: usize)
    requires
        from <= s.len(),
    ensures
        from <= i <= s.len(),
        forall|j: int| from <= j < i ==> !is_ws(#[trigger] s@[j]),
        i < s.len() ==> is_ws(s@[i as int]),
{
    let mut i = from;
    while i < s.len() && !is_whitespace(s[i])
        invariant
            from <= i <= s.len(),
            forall|j: int| from <= j < i ==> !is_ws(#[trigger] s@[j]),
        decreases s.len() - i,
    {
        i = i + 1;
    }
    i
}

/// Start of the trailing whitespace of `s[..to]`.
pub fn trailing_ws_start(s: &Vec<char>, to: usize) -> (i: usize)
    requires
        to <= s.len(),
    ensures
        i <= to,
        forall|j: int| i <= j < to ==> #[trigger] is_ws(s@[j]),
        i > 0 ==> !is_ws(s@[i - 1]),
{
    let mut i = to;
    while i > 0 && is_whitespace(s[i - 1])
        invariant
            i <= to <= s.len(),
            forall|j: int| i <= j < to ==> #[trigger] is_ws(s@[j]),
        decreases i,
    {
        i = i - 1;
    }
    i
}

/// The bounds `(lo, hi)` such that `s[lo..hi]` is `trim(s)`.
pub fn trim_bounds(s: &Vec<char>) -> (r: (usize, usize))
    ensures
        r.0 <= r.1 <= s.len(),
        s@.subrange(r.0 as int, r.1 as int) == trim(s@),
{
    let lo = skip_ws(s, 0);
    let hi = trailing_ws_start(s, s.len());
    let hi = if hi < lo { lo } else { hi };
    proof {
        lemma_ws_lead_unique(s@, lo as int);
        let t = s@.skip(lo as int);
        assert(is_ws_tail(t, hi - lo)) by {
            assert forall|j: int| hi - lo <= j < t.len() implies #[trigger] is_ws(t[j]) by {
                assert(t[j] == s@[j + lo]);
            }
            if hi - lo > 0 {
                assert(t[hi - lo - 1] == s@[hi - 1]);
            }
        }
        lemma_ws_tail_unique(t, hi - lo);
        assert(s@.subrange(lo as int, hi as int) =~= t.take(hi - lo));
    }
    (lo, hi)
}

/// A copy of `v[lo..hi]`.
pub fn slice_chars(v: &Vec<char>, lo: usize, hi: usize) -> (r: Vec<char>)
    requires
        lo <= hi <= v.len(),
    ensures
        r@ == v@.subrange(lo as int, hi as int),
{
    let mut r: Vec<char> = Vec::new();
    push_range(&mut r, v, lo, hi);
    assert(r@ =~= v@.subrange(lo as int, hi as int));
    r
}

/// `i` ends the run of non-whitespace characters that starts at `a`.
pub open spec fn is_token_end(s: Seq<char>, a: int, i: int) -> bool {
    &&& a <= i <= s.len()
    &&& forall|j: int| a <= j < i ==> !is_ws(#[trigger] s[j])
    &&& i < s.len() ==> is_ws(s[i])
}

pub open spec fn token_end(s: Seq<char>, a: int) -> int {
    choose|i: int| is_token_end(s, a, i)
}

pub proof fn lemma_token_end_unique(s: Seq<char>, a: int, i: int)
    requires
        is_token_end(s, a, i),
    ensures
        token_end(s, a) == i,
{
    let k = token_end(s, a);
    assert(is_token_end(s, a, k));
    if k < i {
        assert(!is_ws(s[k]));
    } else if i < k {
        assert(!is_ws(s[i]));
    }
}

/// The first item of `str::split_whitespace`: the first maximal run of
/// non-whitespace characters, if there is one.
pub open spec fn first_token(s: Seq<char>) -> Option<Seq<char>> {
    let a = ws_lead(s);
    if a >= s.len() {
        None
    } else {
        Some(s.subrange(a, token_end(s, a)))
    }
}

pub fn first_token_of(s: &Vec<char>) -> (r: Option<Vec<char>>)
    ensures
        r matches Some(t) ==> first_token(s@) == Some(t@),
        r is None ==> first_token(s@) is None,
{
    let a = skip_ws(s, 0);
    proof {
        lemma_ws_lead_unique(s@, a as int);
    }
    if a == s.len() {
        return None;
    }
    let b = skip_non_ws(s, a);
    proof {
        lemma_token_end_unique(s@, a as int, b as int);
    }
    Some(slice_chars(s, a, b))
}

// ───── runs of characters ─────

/// A set of characters that a run may consist of.
#[derive(Clone, Copy)]
pub enum CharClass {
    /// Anything but `]` and `|`.
    NotCloseOrPipe,
    /// Anything but `]`, `|` and `#`.
    NotClosePipeOrHash,
    /// Anything but `]`.
    NotClose,
    /// Exactly this character.
    Only(char),
    /// Anything but this character.
    Except(char),
    /// Whitespace.
    Ws,
    /// A character of a flowchart node id: alphanumeric, `_` or `-`.
    IdChar,
}

pub open spec fn in_class(k: CharClass, c: char) -> bool {
    match k {
        CharClass::NotCloseOrPipe => c != ']' && c != '|',
        CharClass::NotClosePipeOrHash => c != ']' && c != '|' && c != '#',
        CharClass::NotClose => c != ']',
        CharClass::Only(x) => c == x,
        CharClass::Except(x) => c != x,
        CharClass::Ws => is_ws(c),
        CharClass::IdChar => unicode_alphanumeric(c) || c == '_' || c == '-',
    }
}

pub fn class_has(k: CharClass, c: char) -> (b: bool)
    ensures
        b == in_class(k, c),
{
    match k {
        CharClass::NotCloseOrPipe => c != ']' && c != '|',
        CharClass::NotClosePipeOrHash => c != ']' && c != '|' && c != '#',
        CharClass::NotClose => c != ']',
        CharClass::Only(x) => c == x,
        CharClass::Except(x) => c != x,
        CharClass::Ws => is_whitespace(c),
        CharClass::IdChar => is_alphanumeric(c) || c == '_' || c == '-',
    }
}

/// `e` ends the maximal run of `k` characters that starts at `from`.
pub open spec fn is_run_end(s: Seq<char>, from: int, k: CharClass, e: int) -> bool {
    &&& from <= e <= s.len()
    &&& forall|j: int| from <= j < e ==> in_class(k, #[trigger] s[j])
    &&& e < s.len() ==> !in_class(k, s[e])
}

pub open spec fn run_end(s: Seq<char>, from: int, k: CharClass) -> int {
    choose|e: int| is_run_end(s, from, k, e)
}

pub proof fn lemma_run_end_unique(s: Seq<char>, from: int, k: CharClass, e: int)
    requires
        is_run_end(s, from, k, e),
    ensures
        run_end(s, from, k) == e,
{
    let x = run_end(s, from, k);
    assert(is_run_end(s, from, k, x));
    if x < e {
        assert(in_class(k, s[x]));
    } else if e < x {
        assert(in_class(k, s[e]));
    }
}

/// End of the maximal run of `k` characters starting at `from`.
pub fn scan_run(s: &Vec<char>, from: usize, k: CharClass) -> (e: usize)
    requires
        from <= s.len(),
    ensures
        is_run_end(s@, from as int, k, e as int),
        run_end(s@, from as int, k) == e,
{
    let mut e = from;
    while e < s.len() && class_has(k, s[e])
        invariant
            from <= e <= s.len(),
            forall|j: int| from <= j < e ==> in_class(k, #[trigger] s@[j]),
        decreases s.len() - e,
    {
        e = e + 1;
    }
    proof {
        lemma_run_end_unique(s@, from as int, k, e as int);
    }
    e
}

/// `pat` occurs in `s` starting at `i`.
pub open spec fn occurs_at(s: Seq<char>, pat: Seq<char>, i: int) -> bool {
    0 <= i && i + pat.len() <= s.len() && s.subrange(i, i + pat.len()) == pat
}

/// `str::contains` for a text pattern.
pub open spec fn contains_seq(s: Seq<char>, pat: Seq<char>) -> bool {
    exists|i: int| occurs_at(s, pat, i)
}

/// Whether `pat` occurs in `s` at `i`.
pub fn matches_at(s: &Vec<char>, pat: &Vec<char>, i: usize) -> (b: bool)
    ensures
        b == occurs_at(s@, pat@, i as int),
{
    if i > s.len() || s.len() - i < pat.len() {
        return false;
    }
    let mut k: usize = 0;
    while k < pat.len()
        invariant
            k <= pat.len(),
            i + pat.len() <= s.len(),
            forall|j: int| 0 <= j < k ==> s@[i + j] == #[trigger] pat@[j],
        decreases pat.len() - k,
    {
        if s[i + k] != pat[k] {
            assert(s@.subrange(i as int, i + pat.len())[k as int] != pat@[k as int]);
            return false;
        }
        k = k + 1;
    }
    assert(s@.subrange(i as int, i + pat.len()) =~= pat@);
    true
}

/// Index of the first occurrence of `pat` in `s` at or after `from`.
pub fn find_from(s: &Vec<char>, pat: &Vec<char>, from: usize) -> (r: Option<usize>)
    requires
        from <= s.len(),
    ensures
        match r {
            Some(i) => from <= i && occurs_at(s@, pat@, i as int) && forall|j: int|
                from <= j < i ==> !#[trigger] occurs_at(s@, pat@, j),
            None => forall|j: int| from <= j ==> !#[trigger] occurs_at(s@, pat@, j),
        },
{
    let mut i = from;
    while i < s.len()
        invariant
            from <= i <= s.len(),
            forall|j: int| from <= j < i ==> !#[trigger] occurs_at(s@, pat@, j),
        decreases s.len() - i,
    {
        if matches_at(s, pat, i) {
            return Some(i);
        }
        i = i + 1;
    }
    if matches_at(s, pat, i) {
        return Some(i);
    }
    assert forall|j: int| from <= j implies !#[trigger] occurs_at(s@, pat@, j) by {
        if j > s.len() {
        }
    }
    None
}

/// `i` is the first occurrence of `pat` at or after `from`.
pub open spec fn is_first_occ(s: Seq<char>, pat: Seq<char>, from: int, i: int) -> bool {
    &&& from <= i
    &&& occurs_at(s, pat, i)
    &&& forall|j: int| from <= j < i ==> !#[trigger] occurs_at(s, pat, j)
}

/// `str::find` on `s[from..]`, as an index into `s`.
pub open spec fn first_occ(s: Seq<char>, pat: Seq<char>, from: int) -> Option<int> {
    if exists|i: int| is_first_occ(s, pat, from, i) {
        Some(choose|i: int| is_first_occ(s, pat, from, i))
    } else {
        None
    }
}

/// Index of the first occurrence of `pat` at or after `from`; see [`first_occ`].
pub fn find_first(s: &Vec<char>, pat: &Vec<char>, from: usize) -> (r: Option<usize>)
    requires
        from <= s.len(),
    ensures
        match r {
            Some(i) => first_occ(s@, pat@, from as int) == Some(i as int) && i + pat.len() <= s.len(),
            None => first_occ(s@, pat@, from as int) is None,
        },
{
    match find_from(s, pat, from) {
        Some(i) => {
            proof {
                assert(is_first_occ(s@, pat@, from as int, i as int));
                let k = choose|k: int| is_first_occ(s@, pat@, from as int, k);
                if k < i {
                } else if i < k {
                }
            }
            Some(i)
        },
        None => None,
    }
}

/// Whether `pat` occurs anywhere in `s`.
pub fn contains_chars(s: &Vec<char>, pat: &Vec<char>) -> (b: bool)
    ensures
        b == contains_seq(s@, pat@),
{
    match find_from(s, pat, 0) {
        Some(i) => true,
        None => false,
    }
}

// ───── building text ─────

/// Appends one character to a `String` (`String::push`).
#[verifier::external_body]
pub fn push_char(s: &mut String, c: char)
    ensures
        final(s)@ == old(s)@.push(c),
{
    s.push(c);
}

/// The characters of `s`, in order.
pub fn chars_of(s: &str) -> (v: Vec<char>)
    ensures
        v@ == s@,
{
    let mut v: Vec<char> = Vec::new();
    for c in it: s.chars()
        invariant
            v@ == it.seq().take(it.index() as int),
            it.seq() == s@,
    {
        v.push(c);
    }
    v
}

/// A `String` holding `v[lo..hi]`.
pub fn string_of_range(v: &Vec<char>, lo: usize, hi: usize) -> (s: String)
    requires
        lo <= hi <= v.len(),
    ensures
        s@ == v@.subrange(lo as int, hi as int),
{
    let mut s = String::new();
    let mut i = lo;
    while i < hi
        invariant
            lo <= i <= hi <= v.len(),
            s@ == v@.subrange(lo as int, i as int),
        decreases hi - i,
    {
        push_char(&mut s, v[i]);
        i = i + 1;
        assert(s@ =~= v@.subrange(lo as int, i as int));
    }
    s
}

/// A `String` holding all of `v`.
pub fn string_of(v: &Vec<char>) -> (s: String)
    ensures
        s@ == v@,
{
    let s = string_of_range(v, 0, v.len());
    assert(v@.subrange(0, v@.len() as int) =~= v@);
    s
}

/// Appends `v[lo..hi]` to `out`.
pub fn push_range(out: &mut Vec<char>, v: &Vec<char>, lo: usize, hi: usize)
    requires
        lo <= hi <= v.len(),
    ensures
        final(out)@ == old(out)@ + v@.subrange(lo as int, hi as int),
{
    let mut i = lo;
    while i < hi
        invariant
            lo <= i <= hi <= v.len(),
            out@ == old(out)@ + v@.subrange(lo as int, i as int),
        decreases hi - i,
    {
        out.push(v[i]);
        i = i + 1;
        assert(out@ =~= old(out)@ + v@.subrange(lo as int, i as int));
    }
}

/// Appends all of `v` to `out`.
pub fn push_all(out: &mut Vec<char>, v: &Vec<char>)
    ensures
        final(out)@ == old(out)@ + v@,
{
    push_range(out, v, 0, v.len());
    assert(v@.subrange(0, v@.len() as int) =~= v@);
}

/// Appends the characters of `s` to `out`.
pub fn push_str(out: &mut Vec<char>, s: &str)
    ensures
        final(out)@ == old(out)@ + s@,
{
    let v = chars_of(s);
    push_all(out, &v);
}


/// Unicode lower case of a text (`str::to_lowercase`).
pub uninterp spec fn lowercase(s: Seq<char>) -> Seq<char>;

/// `str::to_lowercase`, named [`lowercase`]. Its documentation gives the
/// lower case of every character by the Unicode tables; here only the ASCII
/// part is stated: a text of ASCII characters maps character by character
/// to its ASCII lower case.
#[verifier::external_body]
pub fn to_lowercase(s: &str) -> (r: String)
    ensures
        r@ == lowercase(s@),
        (forall|i: int| 0 <= i < s@.len() ==> (#[trigger] s@[i] as u32) < 128) ==> r@ == s@.map_values(|c: char| ascii_lower(c)),
{
    s.to_lowercase()
}


/// Number of bytes of the UTF-8 encoding of `s`.
pub open spec fn utf8_len(s: Seq<char>) -> int
    decreases s.len(),
{
    if s.len() == 0 {
        0
    } else {
        utf8_len(s.drop_last()) + char_len(s.last())
    }
}

/// Number of bytes of the UTF-8 encoding of `c`.
pub open spec fn char_len(c: char) -> int {
    if (c as u32) < 0x80 {
        1
    } else if (c as u32) < 0x800 {
        2
    } else if (c as u32) < 0x10000 {
        3
    } else {
        4
    }
}

pub proof fn lemma_utf8_len_single(c: char)
    ensures
        utf8_len(seq![c]) == char_len(c),
{
    assert(seq![c].drop_last() =~= Seq::<char>::empty());
    assert(utf8_len(Seq::<char>::empty()) == 0);
    assert(seq![c].last() == c);
}

pub fn utf8_length(s: &Vec<char>) -> (n: usize)
    ensures
        n == if utf8_len(s@) <= usize::MAX { utf8_len(s@) } else { usize::MAX as int },
{
    let mut n: usize = 0;
    let mut i: usize = 0;
    while i < s.len()
        invariant
            i <= s@.len(),
            n == if utf8_len(s@.subrange(0, i as int)) <= usize::MAX { utf8_len(s@.subrange(0, i as int)) } else { usize::MAX as int },
        decreases s@.len() - i,
    {
        let c = s[i] as u32;
        let w: usize = if c < 0x80 { 1 } else if c < 0x800 { 2 } else if c < 0x10000 { 3 } else { 4 };
        proof {
            let sub = s@.subrange(0, i + 1);
            assert(sub.drop_last() =~= s@.subrange(0, i as int));
            assert(sub.last() == s@[i as int]);
            lemma_utf8_len_nonneg(s@.subrange(0, i as int));
        }
        n = n.saturating_add(w);
        i = i + 1;
    }
    proof {
        assert(s@.subrange(0, s@.len() as int) =~= s@);
    }
    n
}

pub proof fn lemma_utf8_len_nonneg(s: Seq<char>)
    ensures
        utf8_len(s) >= 0,
    decreases s.len(),
{
    if s.len() > 0 {
        lemma_utf8_len_nonneg(s.drop_last());
    }
}

} // verus!
