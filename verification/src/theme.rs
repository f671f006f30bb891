//! Colour themes: the dark and light palettes, with per-key overrides.
//!
//! A palette entry can be replaced by an override read from a theme file:
//! the overrides are `(key, colour)` pairs, the key being the field's name;
//! where a key occurs more than once the last pair wins.
use vstd::prelude::*;
use crate::style::Color;
use crate::text::{char_len, chars_of, lemma_utf8_len_nonneg, lemma_utf8_len_single, utf8_len};

verus! {

#[derive(Debug, Clone, Copy)]
pub struct Theme {
    // Main background / foreground
    pub bg: Color,
    pub fg: Color,

    // Frame / chrome
    pub border: Color,
    pub title: Color,
    pub position: Color,
    pub help_hint: Color,
    pub scrollbar_track: Color,
    pub scrollbar_thumb: Color,

    // Headings
    pub h1: Color,
    pub h2: Color,
    pub h3: Color,
    pub h4: Color,
    pub h5: Color,
    pub h6: Color,
    pub heading_separator: Color,

    // Code blocks
    pub code_bg: Color,
    pub code_border: Color,
    pub code_label: Color,
    pub syntect_theme: &'static str,

    // Inline code
    pub inline_code_fg: Color,
    pub inline_code_bg: Color,
    pub inline_code_tick: Color,

    // Blockquote
    pub blockquote_bar: Color,

    // Links
    pub link: Color,
    pub link_url: Color,

    // Lists
    pub bullet: Color,
    pub task_done: Color,
    pub task_pending: Color,

    // Rules
    pub rule: Color,

    // Tables
    pub table_border: Color,
    pub table_header: Color,

    // Search
    pub search_prompt: Color,
    pub search_match_bg: Color,
    pub search_current_bg: Color,
    pub search_current_fg: Color,
    pub search_no_match: Color,

    // Overlays (TOC, link picker, fuzzy search)
    pub overlay_bg: Color,
    pub overlay_border: Color,
    pub overlay_selected_bg: Color,
    pub overlay_selected_fg: Color,
    pub overlay_text: Color,
    pub overlay_muted: Color,

    // Images
    pub image_fg: Color,

    // Slide mode
    pub slide_indicator: Color,

    // Math
    pub math_fg: Color,

    // Line numbers
    pub line_number: Color,

    // JSON
    pub json_key: Color,
    pub json_string: Color,
    pub json_number: Color,
    pub json_bool: Color,
    pub json_null: Color,
    pub json_bracket: Color,
    pub json_path: Color,
    pub json_focus_bg: Color,
    /// Whether this is the dark palette.
    pub is_dark: bool,
}

/// The overrides as values.
pub open spec fn overrides_view(ov: Seq<(String, Color)>) -> Seq<(Seq<char>, Color)> {
    ov.map_values(|p: (String, Color)| (p.0@, p.1))
}

/// The colour that the last override for `key` gives, if any.
pub open spec fn override_for(ov: Seq<(Seq<char>, Color)>, key: Seq<char>) -> Option<Color>
    decreases ov.len(),
{
    if ov.len() == 0 {
        None
    } else if ov.last().0 == key {
        Some(ov.last().1)
    } else {
        override_for(ov.drop_last(), key)
    }
}

/// The palette colour for `key`: its override, or the built-in `r, g, b`.
pub open spec fn resolved(ov: Seq<(Seq<char>, Color)>, key: Seq<char>, r: u8, g: u8, b: u8) -> Color {
    match override_for(ov, key) {
        Some(c) => c,
        None => Color::Rgb { r, g, b },
    }
}

fn same_text(a: &str, b: &str) -> (r: bool)
    ensures
        r == (a@ == b@),
{
    let x = chars_of(a);
    let y = chars_of(b);
    if x.len() != y.len() {
        return false;
    }
    let mut i: usize = 0;
    while i < x.len()
        invariant
            x@ == a@,
            y@ == b@,
            x@.len() == y@.len(),
            i <= x.len(),
            forall|j: int| 0 <= j < i ==> x@[j] == y@[j],
        decreases x.len() - i,
    {
        if x[i] != y[i] {
            proof {
                assert(x@[i as int] != y@[i as int]);
            }
            return false;
        }
        i = i + 1;
    }
    proof {
        assert(x@ =~= y@);
    }
    true
}

fn resolve(ov: &Vec<(String, Color)>, key: &str, r: u8, g: u8, b: u8) -> (c: Color)
    ensures
        c == resolved(overrides_view(ov@), key@, r, g, b),
{
    let ghost ovv = overrides_view(ov@);
    let mut i: usize = ov.len();
    proof {
        assert(ovv.subrange(0, ovv.len() as int) =~= ovv);
    }
    while i > 0
        invariant
            i <= ov@.len(),
            ovv == overrides_view(ov@),
            override_for(ovv, key@) == override_for(ovv.subrange(0, i as int), key@),
        decreases i,
    {
        proof {
            assert(ovv.subrange(0, i as int).drop_last() =~= ovv.subrange(0, i - 1));
            assert(ovv.subrange(0, i as int).last() == ovv[i - 1]);
        }
        if same_text(ov[i - 1].0.as_str(), key) {
            return ov[i - 1].1;
        }
        i = i - 1;
    }
    Color::Rgb { r, g, b }
}


/// The dark palette with the overrides `ov` applied.
pub open spec fn dark_palette(ov: Seq<(Seq<char>, Color)>) -> Theme {
    Theme {
        is_dark: true,
        bg: resolved(ov, "bg"@, 30, 30, 46),
        fg: resolved(ov, "fg"@, 205, 214, 244),
        border: resolved(ov, "border"@, 68, 71, 90),
        title: resolved(ov, "title"@, 147, 153, 178),
        position: resolved(ov, "position"@, 108, 112, 134),
        help_hint: resolved(ov, "help_hint"@, 88, 91, 112),
        scrollbar_track: resolved(ov, "scrollbar_track"@, 49, 50, 68),
        scrollbar_thumb: resolved(ov, "scrollbar_thumb"@, 127, 132, 156),
        h1: resolved(ov, "h1"@, 205, 214, 244),
        h2: resolved(ov, "h2"@, 137, 180, 250),
        h3: resolved(ov, "h3"@, 203, 166, 247),
        h4: resolved(ov, "h4"@, 166, 227, 161),
        h5: resolved(ov, "h5"@, 249, 226, 175),
        h6: resolved(ov, "h6"@, 127, 132, 156),
        heading_separator: resolved(ov, "heading_separator"@, 49, 50, 68),
        code_bg: resolved(ov, "code_bg"@, 30, 32, 42),
        code_border: resolved(ov, "code_border"@, 68, 71, 90),
        code_label: resolved(ov, "code_label"@, 108, 112, 134),
        syntect_theme: "base16-ocean.dark",
        inline_code_fg: resolved(ov, "inline_code_fg"@, 242, 205, 147),
        inline_code_bg: resolved(ov, "inline_code_bg"@, 40, 42, 54),
        inline_code_tick: resolved(ov, "inline_code_tick"@, 68, 71, 90),
        blockquote_bar: resolved(ov, "blockquote_bar"@, 116, 143, 196),
        link: resolved(ov, "link"@, 137, 180, 250),
        link_url: resolved(ov, "link_url"@, 108, 112, 134),
        bullet: resolved(ov, "bullet"@, 127, 132, 156),
        task_done: resolved(ov, "task_done"@, 166, 227, 161),
        task_pending: resolved(ov, "task_pending"@, 108, 112, 134),
        rule: resolved(ov, "rule"@, 68, 71, 90),
        table_border: resolved(ov, "table_border"@, 68, 71, 90),
        table_header: resolved(ov, "table_header"@, 137, 180, 250),
        search_prompt: resolved(ov, "search_prompt"@, 249, 226, 175),
        search_match_bg: resolved(ov, "search_match_bg"@, 100, 80, 0),
        search_current_bg: resolved(ov, "search_current_bg"@, 249, 226, 175),
        search_current_fg: resolved(ov, "search_current_fg"@, 24, 24, 37),
        search_no_match: resolved(ov, "search_no_match"@, 243, 139, 168),
        overlay_bg: resolved(ov, "overlay_bg"@, 36, 39, 58),
        overlay_border: resolved(ov, "overlay_border"@, 91, 96, 120),
        overlay_selected_bg: resolved(ov, "overlay_selected_bg"@, 68, 71, 90),
        overlay_selected_fg: resolved(ov, "overlay_selected_fg"@, 205, 214, 244),
        overlay_text: resolved(ov, "overlay_text"@, 186, 194, 222),
        overlay_muted: resolved(ov, "overlay_muted"@, 108, 112, 134),
        image_fg: resolved(ov, "image_fg"@, 166, 227, 161),
        slide_indicator: resolved(ov, "slide_indicator"@, 249, 226, 175),
        math_fg: resolved(ov, "math_fg"@, 242, 205, 147),
        line_number: resolved(ov, "line_number"@, 68, 71, 90),
        json_key: resolved(ov, "json_key"@, 137, 180, 250),
        json_string: resolved(ov, "json_string"@, 166, 227, 161),
        json_number: resolved(ov, "json_number"@, 250, 179, 135),
        json_bool: resolved(ov, "json_bool"@, 249, 226, 175),
        json_null: resolved(ov, "json_null"@, 108, 112, 134),
        json_bracket: resolved(ov, "json_bracket"@, 127, 132, 156),
        json_path: resolved(ov, "json_path"@, 203, 166, 247),
        json_focus_bg: resolved(ov, "json_focus_bg"@, 40, 42, 54),
    }
}

/// The light palette with the overrides `ov` applied.
pub open spec fn light_palette(ov: Seq<(Seq<char>, Color)>) -> Theme {
    Theme {
        is_dark: false,
        bg: resolved(ov, "bg"@, 239, 241, 245),
        fg: resolved(ov, "fg"@, 76, 79, 105),
        border: resolved(ov, "border"@, 172, 176, 190),
        title: resolved(ov, "title"@, 92, 95, 119),
        position: resolved(ov, "position"@, 108, 111, 133),
        help_hint: resolved(ov, "help_hint"@, 140, 143, 161),
        scrollbar_track: resolved(ov, "scrollbar_track"@, 204, 208, 218),
        scrollbar_thumb: resolved(ov, "scrollbar_thumb"@, 140, 143, 161),
        h1: resolved(ov, "h1"@, 32, 32, 42),
        h2: resolved(ov, "h2"@, 30, 102, 245),
        h3: resolved(ov, "h3"@, 136, 57, 239),
        h4: resolved(ov, "h4"@, 64, 160, 43),
        h5: resolved(ov, "h5"@, 223, 142, 29),
        h6: resolved(ov, "h6"@, 108, 111, 133),
        heading_separator: resolved(ov, "heading_separator"@, 204, 208, 218),
        code_bg: resolved(ov, "code_bg"@, 239, 241, 245),
        code_border: resolved(ov, "code_border"@, 188, 192, 204),
        code_label: resolved(ov, "code_label"@, 124, 127, 147),
        syntect_theme: "InspiredGitHub",
        inline_code_fg: resolved(ov, "inline_code_fg"@, 179, 82, 2),
        inline_code_bg: resolved(ov, "inline_code_bg"@, 230, 233, 239),
        inline_code_tick: resolved(ov, "inline_code_tick"@, 172, 176, 190),
        blockquote_bar: resolved(ov, "blockquote_bar"@, 30, 102, 245),
        link: resolved(ov, "link"@, 30, 102, 245),
        link_url: resolved(ov, "link_url"@, 140, 143, 161),
        bullet: resolved(ov, "bullet"@, 108, 111, 133),
        task_done: resolved(ov, "task_done"@, 64, 160, 43),
        task_pending: resolved(ov, "task_pending"@, 140, 143, 161),
        rule: resolved(ov, "rule"@, 188, 192, 204),
        table_border: resolved(ov, "table_border"@, 188, 192, 204),
        table_header: resolved(ov, "table_header"@, 30, 102, 245),
        search_prompt: resolved(ov, "search_prompt"@, 223, 142, 29),
        search_match_bg: resolved(ov, "search_match_bg"@, 255, 235, 160),
        search_current_bg: resolved(ov, "search_current_bg"@, 253, 205, 54),
        search_current_fg: resolved(ov, "search_current_fg"@, 32, 32, 42),
        search_no_match: resolved(ov, "search_no_match"@, 210, 15, 57),
        overlay_bg: resolved(ov, "overlay_bg"@, 230, 233, 239),
        overlay_border: resolved(ov, "overlay_border"@, 172, 176, 190),
        overlay_selected_bg: resolved(ov, "overlay_selected_bg"@, 188, 192, 204),
        overlay_selected_fg: resolved(ov, "overlay_selected_fg"@, 76, 79, 105),
        overlay_text: resolved(ov, "overlay_text"@, 76, 79, 105),
        overlay_muted: resolved(ov, "overlay_muted"@, 140, 143, 161),
        image_fg: resolved(ov, "image_fg"@, 64, 160, 43),
        slide_indicator: resolved(ov, "slide_indicator"@, 223, 142, 29),
        math_fg: resolved(ov, "math_fg"@, 179, 82, 2),
        line_number: resolved(ov, "line_number"@, 172, 176, 190),
        json_key: resolved(ov, "json_key"@, 30, 102, 245),
        json_string: resolved(ov, "json_string"@, 64, 160, 43),
        json_number: resolved(ov, "json_number"@, 254, 100, 11),
        json_bool: resolved(ov, "json_bool"@, 223, 142, 29),
        json_null: resolved(ov, "json_null"@, 140, 143, 161),
        json_bracket: resolved(ov, "json_bracket"@, 108, 111, 133),
        json_path: resolved(ov, "json_path"@, 136, 57, 239),
        json_focus_bg: resolved(ov, "json_focus_bg"@, 220, 224, 232),
    }
}

impl Theme {
    /// The dark palette with `overrides` applied.
    pub fn dark_with(overrides: &Vec<(String, Color)>) -> (t: Theme)
        ensures
            t == dark_palette(overrides_view(overrides@)),
    {
        Theme {
            is_dark: true,
            bg: resolve(overrides, "bg", 30, 30, 46),
            fg: resolve(overrides, "fg", 205, 214, 244),
            border: resolve(overrides, "border", 68, 71, 90),
            title: resolve(overrides, "title", 147, 153, 178),
            position: resolve(overrides, "position", 108, 112, 134),
            help_hint: resolve(overrides, "help_hint", 88, 91, 112),
            scrollbar_track: resolve(overrides, "scrollbar_track", 49, 50, 68),
            scrollbar_thumb: resolve(overrides, "scrollbar_thumb", 127, 132, 156),
            h1: resolve(overrides, "h1", 205, 214, 244),
            h2: resolve(overrides, "h2", 137, 180, 250),
            h3: resolve(overrides, "h3", 203, 166, 247),
            h4: resolve(overrides, "h4", 166, 227, 161),
            h5: resolve(overrides, "h5", 249, 226, 175),
            h6: resolve(overrides, "h6", 127, 132, 156),
            heading_separator: resolve(overrides, "heading_separator", 49, 50, 68),
            code_bg: resolve(overrides, "code_bg", 30, 32, 42),
            code_border: resolve(overrides, "code_border", 68, 71, 90),
            code_label: resolve(overrides, "code_label", 108, 112, 134),
            syntect_theme: "base16-ocean.dark",
            inline_code_fg: resolve(overrides, "inline_code_fg", 242, 205, 147),
            inline_code_bg: resolve(overrides, "inline_code_bg", 40, 42, 54),
            inline_code_tick: resolve(overrides, "inline_code_tick", 68, 71, 90),
            blockquote_bar: resolve(overrides, "blockquote_bar", 116, 143, 196),
            link: resolve(overrides, "link", 137, 180, 250),
            link_url: resolve(overrides, "link_url", 108, 112, 134),
            bullet: resolve(overrides, "bullet", 127, 132, 156),
            task_done: resolve(overrides, "task_done", 166, 227, 161),
            task_pending: resolve(overrides, "task_pending", 108, 112, 134),
            rule: resolve(overrides, "rule", 68, 71, 90),
            table_border: resolve(overrides, "table_border", 68, 71, 90),
            table_header: resolve(overrides, "table_header", 137, 180, 250),
            search_prompt: resolve(overrides, "search_prompt", 249, 226, 175),
            search_match_bg: resolve(overrides, "search_match_bg", 100, 80, 0),
            search_current_bg: resolve(overrides, "search_current_bg", 249, 226, 175),
            search_current_fg: resolve(overrides, "search_current_fg", 24, 24, 37),
            search_no_match: resolve(overrides, "search_no_match", 243, 139, 168),
            overlay_bg: resolve(overrides, "overlay_bg", 36, 39, 58),
            overlay_border: resolve(overrides, "overlay_border", 91, 96, 120),
            overlay_selected_bg: resolve(overrides, "overlay_selected_bg", 68, 71, 90),
            overlay_selected_fg: resolve(overrides, "overlay_selected_fg", 205, 214, 244),
            overlay_text: resolve(overrides, "overlay_text", 186, 194, 222),
            overlay_muted: resolve(overrides, "overlay_muted", 108, 112, 134),
            image_fg: resolve(overrides, "image_fg", 166, 227, 161),
            slide_indicator: resolve(overrides, "slide_indicator", 249, 226, 175),
            math_fg: resolve(overrides, "math_fg", 242, 205, 147),
            line_number: resolve(overrides, "line_number", 68, 71, 90),
            json_key: resolve(overrides, "json_key", 137, 180, 250),
            json_string: resolve(overrides, "json_string", 166, 227, 161),
            json_number: resolve(overrides, "json_number", 250, 179, 135),
            json_bool: resolve(overrides, "json_bool", 249, 226, 175),
            json_null: resolve(overrides, "json_null", 108, 112, 134),
            json_bracket: resolve(overrides, "json_bracket", 127, 132, 156),
            json_path: resolve(overrides, "json_path", 203, 166, 247),
            json_focus_bg: resolve(overrides, "json_focus_bg", 40, 42, 54),
        }
    }

    /// The built-in dark palette.
    pub fn dark() -> (t: Theme)
        ensures
            t == dark_palette(Seq::empty()),
    {
        let none: Vec<(String, Color)> = Vec::new();
        let t = Theme::dark_with(&none);
        proof {
            assert(overrides_view(none@) =~= Seq::empty());
        }
        t
    }

    /// The light palette with `overrides` applied.
    pub fn light_with(overrides: &Vec<(String, Color)>) -> (t: Theme)
        ensures
            t == light_palette(overrides_view(overrides@)),
    {
        Theme {
            is_dark: false,
            bg: resolve(overrides, "bg", 239, 241, 245),
            fg: resolve(overrides, "fg", 76, 79, 105),
            border: resolve(overrides, "border", 172, 176, 190),
            title: resolve(overrides, "title", 92, 95, 119),
            position: resolve(overrides, "position", 108, 111, 133),
            help_hint: resolve(overrides, "help_hint", 140, 143, 161),
            scrollbar_track: resolve(overrides, "scrollbar_track", 204, 208, 218),
            scrollbar_thumb: resolve(overrides, "scrollbar_thumb", 140, 143, 161),
            h1: resolve(overrides, "h1", 32, 32, 42),
            h2: resolve(overrides, "h2", 30, 102, 245),
            h3: resolve(overrides, "h3", 136, 57, 239),
            h4: resolve(overrides, "h4", 64, 160, 43),
            h5: resolve(overrides, "h5", 223, 142, 29),
            h6: resolve(overrides, "h6", 108, 111, 133),
            heading_separator: resolve(overrides, "heading_separator", 204, 208, 218),
            code_bg: resolve(overrides, "code_bg", 239, 241, 245),
            code_border: resolve(overrides, "code_border", 188, 192, 204),
            code_label: resolve(overrides, "code_label", 124, 127, 147),
            syntect_theme: "InspiredGitHub",
            inline_code_fg: resolve(overrides, "inline_code_fg", 179, 82, 2),
            inline_code_bg: resolve(overrides, "inline_code_bg", 230, 233, 239),
            inline_code_tick: resolve(overrides, "inline_code_tick", 172, 176, 190),
            blockquote_bar: resolve(overrides, "blockquote_bar", 30, 102, 245),
            link: resolve(overrides, "link", 30, 102, 245),
            link_url: resolve(overrides, "link_url", 140, 143, 161),
            bullet: resolve(overrides, "bullet", 108, 111, 133),
            task_done: resolve(overrides, "task_done", 64, 160, 43),
            task_pending: resolve(overrides, "task_pending", 140, 143, 161),
            rule: resolve(overrides, "rule", 188, 192, 204),
            table_border: resolve(overrides, "table_border", 188, 192, 204),
            table_header: resolve(overrides, "table_header", 30, 102, 245),
            search_prompt: resolve(overrides, "search_prompt", 223, 142, 29),
            search_match_bg: resolve(overrides, "search_match_bg", 255, 235, 160),
            search_current_bg: resolve(overrides, "search_current_bg", 253, 205, 54),
            search_current_fg: resolve(overrides, "search_current_fg", 32, 32, 42),
            search_no_match: resolve(overrides, "search_no_match", 210, 15, 57),
            overlay_bg: resolve(overrides, "overlay_bg", 230, 233, 239),
            overlay_border: resolve(overrides, "overlay_border", 172, 176, 190),
            overlay_selected_bg: resolve(overrides, "overlay_selected_bg", 188, 192, 204),
            overlay_selected_fg: resolve(overrides, "overlay_selected_fg", 76, 79, 105),
            overlay_text: resolve(overrides, "overlay_text", 76, 79, 105),
            overlay_muted: resolve(overrides, "overlay_muted", 140, 143, 161),
            image_fg: resolve(overrides, "image_fg", 64, 160, 43),
            slide_indicator: resolve(overrides, "slide_indicator", 223, 142, 29),
            math_fg: resolve(overrides, "math_fg", 179, 82, 2),
            line_number: resolve(overrides, "line_number", 172, 176, 190),
            json_key: resolve(overrides, "json_key", 30, 102, 245),
            json_string: resolve(overrides, "json_string", 64, 160, 43),
            json_number: resolve(overrides, "json_number", 254, 100, 11),
            json_bool: resolve(overrides, "json_bool", 223, 142, 29),
            json_null: resolve(overrides, "json_null", 140, 143, 161),
            json_bracket: resolve(overrides, "json_bracket", 108, 111, 133),
            json_path: resolve(overrides, "json_path", 136, 57, 239),
            json_focus_bg: resolve(overrides, "json_focus_bg", 220, 224, 232),
        }
    }

    /// The built-in light palette.
    pub fn light() -> (t: Theme)
        ensures
            t == light_palette(Seq::empty()),
    {
        let none: Vec<(String, Color)> = Vec::new();
        let t = Theme::light_with(&none);
        proof {
            assert(overrides_view(none@) =~= Seq::empty());
        }
        t
    }

    /// The other palette (light for dark, dark for light), with `overrides`
    /// applied.
    pub fn toggle(&self, overrides: &Vec<(String, Color)>) -> (t: Theme)
        ensures
            t == (if self.is_dark {
                light_palette(overrides_view(overrides@))
            } else {
                dark_palette(overrides_view(overrides@))
            }),
    {
        if self.is_dark {
            Theme::light_with(overrides)
        } else {
            Theme::dark_with(overrides)
        }
    }
}


// ───── colours in theme files ─────

/// `s` without its leading `#`s.
pub open spec fn strip_hashes(s: Seq<char>) -> Seq<char>
    decreases s.len(),
{
    if s.len() > 0 && s[0] == '#' {
        strip_hashes(s.drop_first())
    } else {
        s
    }
}

/// The first `k` characters of `s` take exactly `b` bytes of UTF-8.
pub open spec fn is_cut(s: Seq<char>, k: int, b: int) -> bool {
    0 <= k <= s.len() && utf8_len(s.subrange(0, k)) == b
}

/// A six-byte colour text can be cut into three two-byte pieces; other
/// lengths are refused before any cut.
pub open spec fn hex_splittable(value: Seq<char>) -> bool {
    let h = strip_hashes(value);
    utf8_len(h) == 6 ==> (exists|k: int| is_cut(h, k, 2)) && (exists|k: int| is_cut(h, k, 4))
}

pub open spec fn hex_value(c: char) -> Option<int> {
    if '0' <= c && c <= '9' {
        Some(c as int - '0' as int)
    } else if 'a' <= c && c <= 'f' {
        Some(c as int - 'a' as int + 10)
    } else if 'A' <= c && c <= 'F' {
        Some(c as int - 'A' as int + 10)
    } else {
        None
    }
}

/// `u8::from_str_radix(piece, 16)`, with 0 for a piece that is no number:
/// hex digits, optionally after a `+`.
pub open spec fn radix16(cs: Seq<char>) -> u8 {
    if cs.len() == 2 && cs[0] == '+' {
        match hex_value(cs[1]) {
            Some(v) => v as u8,
            None => 0,
        }
    } else if cs.len() == 2 {
        match (hex_value(cs[0]), hex_value(cs[1])) {
            (Some(a), Some(b)) => (16 * a + b) as u8,
            _ => 0,
        }
    } else if cs.len() == 1 {
        match hex_value(cs[0]) {
            Some(v) => v as u8,
            None => 0,
        }
    } else {
        0
    }
}

/// The colour a theme file gives as text: after any leading `#`s, six
/// bytes read as three two-byte hex pieces (a piece that is no number reads
/// as 0); any other length gives no colour.
pub open spec fn hex_color(value: Seq<char>) -> Option<Color> {
    let h = strip_hashes(value);
    if utf8_len(h) != 6 {
        None
    } else {
        let k2 = choose|k: int| is_cut(h, k, 2);
        let k4 = choose|k: int| is_cut(h, k, 4);
        Some(Color::Rgb {
            r: radix16(h.subrange(0, k2)),
            g: radix16(h.subrange(k2, k4)),
            b: radix16(h.subrange(k4, h.len() as int)),
        })
    }
}

fn hex_of(c: char) -> (v: Option<u8>)
    ensures
        match v {
            Some(x) => hex_value(c) == Some(x as int),
            None => hex_value(c) is None,
        },
{
    if '0' <= c && c <= '9' {
        Some((c as u32 - '0' as u32) as u8)
    } else if 'a' <= c && c <= 'f' {
        Some((c as u32 - 'a' as u32 + 10) as u8)
    } else if 'A' <= c && c <= 'F' {
        Some((c as u32 - 'A' as u32 + 10) as u8)
    } else {
        None
    }
}

fn radix16_of(cs: &Vec<char>, lo: usize, hi: usize) -> (v: u8)
    requires
        lo <= hi <= cs@.len(),
    ensures
        v == radix16(cs@.subrange(lo as int, hi as int)),
{
    let ghost p = cs@.subrange(lo as int, hi as int);
    if hi - lo == 2 && cs[lo] == '+' {
        proof {
            assert(p[0] == cs@[lo as int] && p[1] == cs@[lo + 1]);
        }
        match hex_of(cs[lo + 1]) {
            Some(v) => v,
            None => 0,
        }
    } else if hi - lo == 2 {
        proof {
            assert(p[0] == cs@[lo as int] && p[1] == cs@[lo + 1]);
        }
        match (hex_of(cs[lo]), hex_of(cs[lo + 1])) {
            (Some(a), Some(b)) => a * 16 + b,
            _ => 0,
        }
    } else if hi - lo == 1 {
        proof {
            assert(p[0] == cs@[lo as int]);
        }
        match hex_of(cs[lo]) {
            Some(v) => v,
            None => 0,
        }
    } else {
        0
    }
}

fn char_bytes(c: char) -> (n: usize)
    ensures
        n == utf8_len(seq![c]),
        1 <= n <= 4,
{
    proof {
        lemma_utf8_len_single(c);
    }
    let u = c as u32;
    if u < 0x80 {
        1
    } else if u < 0x800 {
        2
    } else if u < 0x10000 {
        3
    } else {
        4
    }
}

proof fn lemma_utf8_prefix_step(s: Seq<char>, k: int)
    requires
        0 <= k < s.len(),
    ensures
        utf8_len(s.subrange(0, k + 1)) == utf8_len(s.subrange(0, k)) + utf8_len(seq![s[k]]),
        utf8_len(seq![s[k]]) >= 1,
{
    let t = s.subrange(0, k + 1);
    assert(t.drop_last() =~= s.subrange(0, k));
    assert(t.last() == s[k]);
    lemma_utf8_len_single(s[k]);
}

/// Prefix byte lengths grow with every character, so a byte count falls on
/// at most one character boundary.
proof fn lemma_cut_unique(s: Seq<char>, k1: int, k2: int, b: int)
    requires
        is_cut(s, k1, b),
        is_cut(s, k2, b),
    ensures
        k1 == k2,
{
    if k1 < k2 {
        lemma_prefix_grows(s, k1, k2);
    } else if k2 < k1 {
        lemma_prefix_grows(s, k2, k1);
    }
}

proof fn lemma_prefix_grows(s: Seq<char>, a: int, b: int)
    requires
        0 <= a < b <= s.len(),
    ensures
        utf8_len(s.subrange(0, a)) < utf8_len(s.subrange(0, b)),
    decreases b - a,
{
    lemma_utf8_prefix_step(s, b - 1);
    if a < b - 1 {
        lemma_prefix_grows(s, a, b - 1);
    }
}

proof fn lemma_strip_hashes_suffix(s: Seq<char>)
    ensures
        exists|d: int| 0 <= d <= s.len() && strip_hashes(s) == s.subrange(d, s.len() as int),
    decreases s.len(),
{
    if s.len() > 0 && s[0] == '#' {
        lemma_strip_hashes_suffix(s.drop_first());
        let d = choose|d: int| 0 <= d <= s.drop_first().len() && strip_hashes(s.drop_first()) == s.drop_first().subrange(d, s.drop_first().len() as int);
        assert(s.drop_first().subrange(d, s.drop_first().len() as int) =~= s.subrange(d + 1, s.len() as int));
    } else {
        assert(s.subrange(0, s.len() as int) =~= s);
    }
}

/// Where the leading `#`s of `s` end.
fn skip_hashes(s: &Vec<char>) -> (d: usize)
    ensures
        d <= s@.len(),
        strip_hashes(s@) == s@.subrange(d as int, s@.len() as int),
{
    let mut d: usize = 0;
    proof {
        assert(s@.subrange(0, s@.len() as int) =~= s@);
    }
    while d < s.len() && s[d] == '#'
        invariant
            d <= s@.len(),
            strip_hashes(s@) == strip_hashes(s@.subrange(d as int, s@.len() as int)),
        decreases s@.len() - d,
    {
        proof {
            let t = s@.subrange(d as int, s@.len() as int);
            assert(t.drop_first() =~= s@.subrange(d + 1, s@.len() as int));
        }
        d = d + 1;
    }
    d
}

/// Byte count of the UTF-8 text after the leading `#`s, stopping once it
/// passes six, and where it reaches two and four bytes.
fn hex_layout(s: &Vec<char>, d: usize) -> (r: (usize, Option<usize>, Option<usize>))
    requires
        d <= s@.len(),
    ensures
        ({
            let h = s@.subrange(d as int, s@.len() as int);
            &&& (r.0 == 6) == (utf8_len(h) == 6)
            &&& (r.0 == 6 ==> match r.1 {
                Some(k) => d <= k && is_cut(h, k - d, 2),
                None => !exists|k: int| is_cut(h, k, 2),
            })
            &&& (r.0 == 6 ==> match r.2 {
                Some(k) => d <= k && is_cut(h, k - d, 4),
                None => !exists|k: int| is_cut(h, k, 4),
            })
        }),
{
    let ghost h = s@.subrange(d as int, s@.len() as int);
    let mut total: usize = 0;
    let mut k2: Option<usize> = None;
    let mut k4: Option<usize> = None;
    let mut i: usize = d;
    proof {
        assert(h.subrange(0, 0) =~= Seq::<char>::empty());
    }
    while i < s.len() && total <= 6
        invariant
            d <= i <= s@.len(),
            h == s@.subrange(d as int, s@.len() as int),
            total == utf8_len(h.subrange(0, i - d)),
            total <= 10,
            i > d ==> total >= 1,
            match k2 {
                Some(k) => d <= k <= i && is_cut(h, k - d, 2),
                None => forall|k: int| 0 <= k <= i - d ==> !is_cut(h, k, 2),
            },
            match k4 {
                Some(k) => d <= k <= i && is_cut(h, k - d, 4),
                None => forall|k: int| 0 <= k <= i - d ==> !is_cut(h, k, 4),
            },
        decreases s@.len() - i,
    {
        let n = char_bytes(s[i]);
        proof {
            assert(h[i - d] == s@[i as int]);
            lemma_utf8_prefix_step(h, i - d);
        }
        total = total + n;
        i = i + 1;
        proof {
            assert forall|k: int| 0 <= k < i - d implies utf8_len(h.subrange(0, k)) < total by {
                lemma_prefix_grows(h, k, i - d);
            }
        }
        if total == 2 {
            k2 = Some(i);
        }
        if total == 4 {
            k4 = Some(i);
        }
    }
    proof {
        lemma_utf8_len_nonneg(h);
        assert(h.subrange(0, h.len() as int) =~= h);
        if i < s.len() {
            // Stopped early: more than six bytes already.
            lemma_prefix_grows(h, i - d, h.len() as int);
            assert(utf8_len(h) > 6);
        } else {
            assert(h.subrange(0, i - d) =~= h);
        }
        if total == 6 {
            assert(i == s.len());
            if k2 is None {
                assert forall|k: int| !is_cut(h, k, 2) by {
                    if is_cut(h, k, 2) {
                        assert(k <= i - d);
                    }
                }
            }
            if k4 is None {
                assert forall|k: int| !is_cut(h, k, 4) by {
                    if is_cut(h, k, 4) {
                        assert(k <= i - d);
                    }
                }
            }
        }
    }
    (if total == 6 { 6 } else { 0 }, k2, k4)
}

/// Whether a theme file's colour text can be read without cutting a
/// character apart; see [`hex_splittable`].
pub fn is_hex_splittable(value: &str) -> (b: bool)
    ensures
        b == hex_splittable(value@),
{
    let s = chars_of(value);
    let d = skip_hashes(&s);
    let (total, k2, k4) = hex_layout(&s, d);
    if total != 6 {
        return true;
    }
    k2.is_some() && k4.is_some()
}

/// The colour a theme file gives as text; see [`hex_color`].
pub fn parse_hex_color(value: &str) -> (c: Option<Color>)
    requires
        hex_splittable(value@),
    ensures
        c == hex_color(value@),
{
    let s = chars_of(value);
    let d = skip_hashes(&s);
    let ghost h = s@.subrange(d as int, s@.len() as int);
    let (total, k2, k4) = hex_layout(&s, d);
    if total != 6 {
        return None;
    }
    match (k2, k4) {
        (Some(a), Some(b)) => {
            proof {
                let c2 = choose|k: int| is_cut(h, k, 2);
                let c4 = choose|k: int| is_cut(h, k, 4);
                lemma_cut_unique(h, c2, a - d, 2);
                lemma_cut_unique(h, c4, b - d, 4);
                lemma_prefix_grows_le(h, a - d, b - d);
                assert(h.subrange(0, a - d) =~= s@.subrange(d as int, a as int));
                assert(h.subrange(a - d, b - d) =~= s@.subrange(a as int, b as int));
                assert(h.subrange(b - d, h.len() as int) =~= s@.subrange(b as int, s@.len() as int));
            }
            let r = radix16_of(&s, d, a);
            let g = radix16_of(&s, a, b);
            let bl = radix16_of(&s, b, s.len());
            Some(Color::Rgb { r, g, b: bl })
        },
        _ => None,
    }
}

proof fn lemma_prefix_grows_le(h: Seq<char>, a: int, b: int)
    requires
        is_cut(h, a, 2),
        is_cut(h, b, 4),
    ensures
        a <= b,
{
    if b < a {
        lemma_prefix_grows(h, b, a);
    }
}

// ───── theme files ─────

/// The string table that toml's `from_str` reads from a theme file's text
/// into a `HashMap<String, String>`, or `None` where it refuses the text.
pub uninterp spec fn toml_table(contents: Seq<char>) -> Option<Map<Seq<char>, Seq<char>>>;

/// The entries as values.
pub open spec fn entries_view(es: Seq<(String, String)>) -> Seq<(Seq<char>, Seq<char>)> {
    es.map_values(|p: (String, String)| (p.0@, p.1@))
}

/// `es` lists table `t`: each key once, with its value, and every key of `t`.
pub open spec fn lists_table(es: Seq<(Seq<char>, Seq<char>)>, t: Map<Seq<char>, Seq<char>>) -> bool {
    &&& forall|i: int, j: int| 0 <= i < j < es.len() ==> (#[trigger] es[i]).0 != (#[trigger] es[j]).0
    &&& forall|i: int| 0 <= i < es.len() ==> t.contains_key((#[trigger] es[i]).0) && t[es[i].0] == es[i].1
    &&& forall|k: Seq<char>| #[trigger] t.contains_key(k) ==> exists|i: int| 0 <= i < es.len() && (#[trigger] es[i]).0 == k
}

/// toml's `from_str` into a `HashMap<String, String>`, its entries listed in
/// the map's walking order. The table is named [`toml_table`]; the order is
/// the hash map's and is left open: each key comes once, with its value.
#[verifier::external_body]
pub(crate) fn theme_entries(contents: &str) -> (r: Option<Vec<(String, String)>>)
    ensures
        r is Some <==> toml_table(contents@) is Some,
        r matches Some(v) ==> lists_table(entries_view(v@), toml_table(contents@)->0),
{
    match toml::from_str::<std::collections::HashMap<String, String>>(contents) {
        Ok(m) => Some(m.into_iter().collect()),
        Err(_) => None,
    }
}

/// The overrides that theme-file entries give: each entry whose value reads
/// as a colour (see [`hex_color`]), in order.
pub open spec fn overrides_of(es: Seq<(Seq<char>, Seq<char>)>) -> Seq<(Seq<char>, Color)>
    decreases es.len(),
{
    if es.len() == 0 {
        Seq::empty()
    } else {
        overrides_of(es.drop_last()) + match hex_color(es.last().1) {
            Some(c) => seq![(es.last().0, c)],
            None => Seq::empty(),
        }
    }
}

/// The overrides that a theme file's entries give; entries whose value is
/// no colour are left out.
pub fn overrides_from(entries: &Vec<(String, String)>) -> (o: Vec<(String, Color)>)
    requires
        forall|i: int| 0 <= i < entries@.len() ==> hex_splittable((#[trigger] entries@[i]).1@),
    ensures
        overrides_view(o@) == overrides_of(entries_view(entries@)),
{
    let mut o: Vec<(String, Color)> = Vec::new();
    let mut i: usize = 0;
    while i < entries.len()
        invariant
            i <= entries@.len(),
            forall|j: int| 0 <= j < entries@.len() ==> hex_splittable((#[trigger] entries@[j]).1@),
            overrides_view(o@) == overrides_of(entries_view(entries@.subrange(0, i as int))),
        decreases entries@.len() - i,
    {
        let ghost before = o@;
        proof {
            let sub = entries_view(entries@.subrange(0, i + 1));
            assert(sub.drop_last() =~= entries_view(entries@.subrange(0, i as int)));
            assert(sub.last() == (entries@[i as int].0@, entries@[i as int].1@));
        }
        match parse_hex_color(entries[i].1.as_str()) {
            Some(c) => {
                o.push((entries[i].0.clone(), c));
                proof {
                    assert(overrides_view(o@) =~= overrides_view(before) + seq![(entries@[i as int].0@, c)]);
                }
            },
            None => {
                proof {
                    assert(overrides_view(o@) =~= overrides_view(before) + Seq::<(Seq<char>, Color)>::empty());
                }
            },
        }
        i = i + 1;
    }
    proof {
        assert(entries@.subrange(0, entries@.len() as int) =~= entries@);
    }
    o
}

/// Whether a value of table `t` cannot be read without cutting a character
/// apart (see [`hex_splittable`]).
pub open spec fn has_unsplittable(t: Map<Seq<char>, Seq<char>>) -> bool {
    exists|k: Seq<char>| #[trigger] t.contains_key(k) && !hex_splittable(t[k])
}

/// The colour overrides that a theme file's text gives: none where toml
/// refuses the text; else, in the table's walking order, each entry whose
/// value reads as a colour. `None` where a value cannot be read without
/// cutting a character apart.
pub fn theme_file_overrides(contents: &str) -> (r: Option<Vec<(String, Color)>>)
    ensures
        r is None <==> (toml_table(contents@) matches Some(t) && has_unsplittable(t)),
        r matches Some(o) ==> match toml_table(contents@) {
            None => o@.len() == 0,
            Some(t) => exists|es: Seq<(Seq<char>, Seq<char>)>|
                lists_table(es, t) && overrides_view(o@) == #[trigger] overrides_of(es),
        },
{
    match theme_entries(contents) {
        None => Some(Vec::new()),
        Some(entries) => {
            let ghost t = toml_table(contents@)->0;
            let ghost ev = entries_view(entries@);
            let mut i: usize = 0;
            while i < entries.len()
                invariant
                    i <= entries@.len(),
                    ev == entries_view(entries@),
                    ev.len() == entries@.len(),
                    lists_table(ev, t),
                    toml_table(contents@) == Some(t),
                    forall|j: int| 0 <= j < i ==> hex_splittable((#[trigger] entries@[j]).1@),
                decreases entries@.len() - i,
            {
                if !is_hex_splittable(entries[i].1.as_str()) {
                    proof {
                        assert(ev[i as int].0 == entries@[i as int].0@);
                        assert(t.contains_key(ev[i as int].0));
                    }
                    return None;
                }
                i = i + 1;
            }
            proof {
                assert forall|k: Seq<char>| #[trigger] t.contains_key(k) implies hex_splittable(t[k]) by {
                    let j = choose|j: int| 0 <= j < ev.len() && (#[trigger] ev[j]).0 == k;
                    assert(ev[j] == (entries@[j].0@, entries@[j].1@));
                }
            }
            let o = overrides_from(&entries);
            proof {
                assert(lists_table(ev, t));
            }
            Some(o)
        },
    }
}

} // verus!
