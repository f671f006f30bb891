use mdviewer::style::{wrap_lines, Color, Line, Style, StyledSpan};

fn line(text: &str) -> Line {
    Line { spans: vec![StyledSpan { text: text.to_string(), style: Style::default() }] }
}

fn texts(lines: &[Line]) -> Vec<String> {
    lines.iter().map(|l| l.spans.iter().map(|s| s.text.as_str()).collect()).collect()
}

#[test]
fn wrap_breaks_between_words() {
    let out = wrap_lines(&vec![line("hello big world")], 9);
    assert_eq!(texts(&out), vec!["hello big", "world"]);
}

#[test]
fn wrap_splits_a_word_longer_than_the_width() {
    let out = wrap_lines(&vec![line("abcdefghij")], 4);
    assert_eq!(texts(&out), vec!["abcd", "efgh", "ij"]);
}

#[test]
fn wrap_keeps_short_and_empty_lines() {
    let out = wrap_lines(&vec![line("short"), Line::empty(), line("fits exactly")], 12);
    assert_eq!(texts(&out), vec!["short", "", "fits exactly"]);
    assert!(out[1].spans.is_empty());
}

#[test]
fn wrap_width_zero_leaves_lines_alone() {
    let out = wrap_lines(&vec![line("a long line that would wrap")], 0);
    assert_eq!(texts(&out), vec!["a long line that would wrap"]);
}

#[test]
fn wrap_keeps_span_styles() {
    let red = Style::fg(Color::Red);
    let l = Line {
        spans: vec![
            StyledSpan { text: "aa ".to_string(), style: Style::default() },
            StyledSpan { text: "bbbb cc".to_string(), style: red.clone() },
        ],
    };
    let out = wrap_lines(&vec![l], 5);
    assert_eq!(texts(&out), vec!["aa", "bbbb", "cc"]);
    assert_eq!(out[1].spans[0].style.fg, Some(Color::Red));
    assert_eq!(out[0].spans[0].style.fg, None);
}

#[test]
fn wrap_loses_no_visible_character() {
    let src = vec![line("the quick brown fox jumps over the lazy dog"), line("x")];
    let out = wrap_lines(&src, 7);
    let visible = |ls: &[Line]| -> String {
        texts(ls).concat().chars().filter(|c| !c.is_whitespace()).collect()
    };
    assert_eq!(visible(&out), visible(&src));
    assert!(out.iter().all(|l| l.display_width() <= 7));
}

#[test]
fn display_width_counts_characters() {
    assert_eq!(line("héllo").display_width(), 5);
    assert_eq!(Line::empty().display_width(), 0);
}

#[test]
fn wrap_drops_the_space_where_a_line_breaks() {
    let out = wrap_lines(&vec![line("aaa bbb   ccc")], 7);
    assert_eq!(texts(&out), vec!["aaa bbb".to_string(), "ccc".to_string()]);
}

#[test]
fn wrap_cuts_a_long_word_after_a_short_one() {
    let out = wrap_lines(&vec![line("ab cdefghij")], 4);
    assert_eq!(texts(&out), vec!["ab".to_string(), "cdef".to_string(), "ghij".to_string()]);
}

#[test]
fn wrapped_lines_fit_their_width() {
    let text = "  lead   words, then averyveryverylongwordthatmustbecut and    spaces     here ";
    let line = mdviewer::style::Line {
        spans: vec![mdviewer::style::StyledSpan { text: text.to_string(), style: mdviewer::style::Style::default() }],
    };
    for width in 1..12 {
        let out = mdviewer::style::wrap_lines(&vec![line.clone()], width);
        for l in &out {
            let t: String = l.spans.iter().map(|s| s.text.as_str()).collect();
            assert!(t.trim_end().chars().count() <= width, "{:?} at {}", t, width);
        }
    }
}
