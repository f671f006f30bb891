//! User preferences and the rules that decide which content stays hidden.
use vstd::prelude::*;
use crate::text::{
    chars_eq_ignore_ascii_case, chars_of, eq_ignore_ascii_case, first_token, first_token_of, push_char,
    push_str, slice_chars, string_of, trim, trim_bounds,
};

verus! {

/// Preferences read from the user's configuration file.
pub struct Config {
    pub theme: String,
    pub line_numbers: bool,
    pub width: usize,
    pub hide: HideConfig,
}

/// Content that is parsed but deliberately never rendered.
pub struct HideConfig {
    pub images: bool,
    /// Fenced code block languages to omit entirely, e.g. `dataviewjs`.
    pub code_languages: Vec<String>,
}

/// The hidden languages as texts.
pub open spec fn languages_view(langs: Seq<String>) -> Seq<Seq<char>> {
    langs.map_values(|l: String| l@)
}

/// A fence whose info string opens with a language that one of `langs`
/// names, ignoring ASCII case and the whitespace around each entry.
pub open spec fn hides(langs: Seq<Seq<char>>, info: Seq<char>) -> bool {
    match first_token(info) {
        None => false,
        Some(lang) => exists|i: int|
            0 <= i < langs.len() && eq_ignore_ascii_case(#[trigger] trim(langs[i]), lang),
    }
}

impl HideConfig {
    pub open spec fn languages(&self) -> Seq<Seq<char>> {
        languages_view(self.code_languages@)
    }

    /// `info` is the raw fence info string, which may carry attributes after the
    /// language: a fence opened with `js title="x"` arrives here in full, so only
    /// the leading token is compared.
    pub fn hides_language(&self, info: &str) -> (r: bool)
        ensures
            r == hides(self.languages(), info@),
    {
        let v = chars_of(info);
        let lang = match first_token_of(&v) {
            None => return false,
            Some(t) => t,
        };
        let mut i: usize = 0;
        while i < self.code_languages.len()
            invariant
                i <= self.code_languages.len(),
                first_token(info@) == Some(lang@),
                forall|j: int|
                    0 <= j < i ==> !eq_ignore_ascii_case(
                        #[trigger] trim(self.languages()[j]),
                        lang@,
                    ),
            decreases self.code_languages.len() - i,
        {
            let hv = chars_of(self.code_languages[i].as_str());
            let (lo, hi) = trim_bounds(&hv);
            let trimmed = slice_chars(&hv, lo, hi);
            assert(self.languages()[i as int] == hv@);
            if chars_eq_ignore_ascii_case(&trimmed, &lang) {
                return true;
            }
            i = i + 1;
        }
        false
    }
}

impl Default for HideConfig {
    fn default() -> (r: Self)
        ensures
            !r.images,
            r.code_languages@.len() == 0,
    {
        HideConfig { images: false, code_languages: Vec::new() }
    }
}

/// The theme a configuration without a `theme` key uses.
pub fn default_theme() -> (s: String)
    ensures
        s@ == seq!['d', 'a', 'r', 'k'],
{
    let mut s = String::new();
    push_char(&mut s, 'd');
    push_char(&mut s, 'a');
    push_char(&mut s, 'r');
    push_char(&mut s, 'k');
    s
}

impl Default for Config {
    fn default() -> (r: Self)
        ensures
            r.theme@ == seq!['d', 'a', 'r', 'k'],
            !r.line_numbers,
            r.width == 0,
            !r.hide.images,
            r.hide.code_languages@.len() == 0,
    {
        Config {
            theme: default_theme(),
            line_numbers: false,
            width: 0,
            hide: HideConfig { images: false, code_languages: Vec::new() },
        }
    }
}

/// Which candidate configuration file is read: the first one that exists,
/// and when none does, the last candidate.
pub open spec fn chosen_config(is_file: Seq<bool>) -> Option<int> {
    if exists|i: int| 0 <= i < is_file.len() && is_file[i] {
        Some(choose|i: int| 0 <= i < is_file.len() && is_file[i] && forall|j: int| 0 <= j < i ==> !is_file[j])
    } else if is_file.len() > 0 {
        Some(is_file.len() - 1)
    } else {
        None
    }
}

/// Given, for each candidate path in precedence order, whether a file
/// exists there, returns the index of the path to read.
pub fn pick_config_candidate(is_file: &Vec<bool>) -> (r: Option<usize>)
    ensures
        r matches Some(i) ==> chosen_config(is_file@) == Some(i as int),
        r is None ==> chosen_config(is_file@) is None,
{
    let mut i: usize = 0;
    while i < is_file.len()
        invariant
            i <= is_file.len(),
            forall|j: int| 0 <= j < i ==> !is_file@[j],
        decreases is_file.len() - i,
    {
        if is_file[i] {
            proof {
                let k = choose|k: int| 0 <= k < is_file@.len() && is_file@[k] && forall|j: int| 0 <= j < k ==> !is_file@[j];
                assert(0 <= k < is_file@.len() && is_file@[k] && forall|j: int| 0 <= j < k ==> !is_file@[j]);
                if k < i {
                } else if i < k {
                    assert(!is_file@[i as int]);
                }
            }
            return Some(i);
        }
        i = i + 1;
    }
    if is_file.len() == 0 {
        None
    } else {
        Some(is_file.len() - 1)
    }
}

/// `name` under the directory `base`, as a path joins them: with a `/`
/// between, unless `base` is empty or already ends with one.
pub open spec fn joined(base: Seq<char>, name: Seq<char>) -> Seq<char> {
    if base.len() == 0 || base.last() == '/' {
        base + name
    } else {
        base + seq!['/'] + name
    }
}

/// The configuration files looked for, in precedence order: under each base
/// directory in turn, `mdviewer/config.toml`, then the older
/// `mdterm/config.toml`.
pub open spec fn config_candidates_of(bases: Seq<Seq<char>>) -> Seq<Seq<char>>
    decreases bases.len(),
{
    if bases.len() == 0 {
        Seq::empty()
    } else {
        config_candidates_of(bases.drop_last()) + seq![
            joined(bases.last(), "mdviewer/config.toml"@),
            joined(bases.last(), "mdterm/config.toml"@),
        ]
    }
}

fn join_path(base: &String, name: &str) -> (p: String)
    ensures
        p@ == joined(base@, name@),
{
    let mut v = chars_of(base.as_str());
    if v.len() > 0 && v[v.len() - 1] != '/' {
        v.push('/');
    }
    push_str(&mut v, name);
    string_of(&v)
}

/// The candidate configuration files under the base directories `bases`;
/// see [`config_candidates_of`].
pub fn config_candidates(bases: &Vec<String>) -> (ps: Vec<String>)
    ensures
        ps@.map_values(|p: String| p@) == config_candidates_of(bases@.map_values(|b: String| b@)),
{
    let ghost bv = bases@.map_values(|b: String| b@);
    let mut ps: Vec<String> = Vec::new();
    let mut i: usize = 0;
    while i < bases.len()
        invariant
            i <= bases@.len(),
            bv == bases@.map_values(|b: String| b@),
            ps@.map_values(|p: String| p@) == config_candidates_of(bv.take(i as int)),
        decreases bases@.len() - i,
    {
        let a = join_path(&bases[i], "mdviewer/config.toml");
        let b = join_path(&bases[i], "mdterm/config.toml");
        let ghost before = ps@;
        ps.push(a);
        ps.push(b);
        proof {
            assert(bv.take(i + 1).drop_last() =~= bv.take(i as int));
            assert(bv.take(i + 1).last() == bases@[i as int]@);
            assert(ps@.map_values(|p: String| p@) =~= before.map_values(|p: String| p@) + seq![a@, b@]);
        }
        i = i + 1;
    }
    proof {
        assert(bv.take(bases@.len() as int) =~= bv);
    }
    ps
}

} // verus!
