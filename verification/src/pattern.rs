//! Regular-expression matching through the regex crate, and the step from
//! the byte offsets it reports to char positions.
use vstd::prelude::*;
use crate::text::char_len;

verus! {

/// Whether regex's `Regex::new` accepts `pattern`.
pub uninterp spec fn regex_valid(pattern: Seq<char>) -> bool;

/// The `(start, end)` byte offsets of the matches that regex's
/// `Regex::find_iter` reports for `pattern` in `text`.
pub uninterp spec fn regex_found(pattern: Seq<char>, text: Seq<char>) -> Seq<(usize, usize)>;

/// regex's `Regex::new` on `pattern`, then `Regex::find_iter` on each of
/// `texts`: `None` where the pattern is refused (named [`regex_valid`]), else
/// each text's matches as byte offsets (named [`regex_found`]).
#[verifier::external_body]
pub(crate) fn regex_find_all(pattern: &str, texts: &Vec<String>) -> (r: Option<Vec<Vec<(usize, usize)>>>)
    ensures
        r is Some <==> regex_valid(pattern@),
        r matches Some(v) ==> v@.len() == texts@.len() && forall|i: int|
            0 <= i < v@.len() ==> (#[trigger] v@[i])@ == regex_found(pattern@, texts@[i]@),
{
    match regex::Regex::new(pattern) {
        Ok(re) => Some(
            texts.iter().map(|t| re.find_iter(t.as_str()).map(|m| (m.start(), m.end())).collect()).collect(),
        ),
        Err(_) => None,
    }
}

/// The number of leading chars of `text` whose UTF-8 bytes are needed to
/// cover `b` bytes: the char position of byte offset `b`.
pub open spec fn char_at_byte(text: Seq<char>, b: int) -> int
    decreases text.len(),
{
    if b <= 0 || text.len() == 0 {
        0
    } else {
        1 + char_at_byte(text.drop_first(), b - char_len(text[0]))
    }
}

proof fn lemma_char_at_byte_bound(text: Seq<char>, b: int)
    ensures
        0 <= char_at_byte(text, b) <= text.len(),
    decreases text.len(),
{
    if !(b <= 0 || text.len() == 0) {
        lemma_char_at_byte_bound(text.drop_first(), b - char_len(text[0]));
    }
}

/// The char position of byte offset `b` in `text`.
pub fn char_index(text: &Vec<char>, b: usize) -> (k: usize)
    ensures
        k as int == char_at_byte(text@, b as int),
        k <= text@.len(),
{
    let mut k: usize = 0;
    let mut acc: usize = 0;
    proof {
        assert(text@.subrange(0, text@.len() as int) =~= text@);
        lemma_char_at_byte_bound(text@, b as int);
    }
    while k < text.len() && acc < b
        invariant
            k <= text@.len(),
            acc <= b,
            char_at_byte(text@, b as int) == k + char_at_byte(text@.subrange(k as int, text@.len() as int), b - acc),
        decreases text@.len() - k,
    {
        let ghost rest = text@.subrange(k as int, text@.len() as int);
        let u: u32 = text[k] as u32;
        let n: usize = if u < 0x80 {
            1
        } else if u < 0x800 {
            2
        } else if u < 0x10000 {
            3
        } else {
            4
        };
        proof {
            assert(rest[0] == text@[k as int]);
            assert(rest.drop_first() =~= text@.subrange(k + 1, text@.len() as int));
        }
        if n >= b - acc {
            proof {
                let r2 = text@.subrange(k + 1, text@.len() as int);
                assert(char_at_byte(r2, b - acc - n) == 0);
            }
            return k + 1;
        }
        acc = acc + n;
        k = k + 1;
    }
    k
}

} // verus!
