use mdviewer::style::{Line, Style, StyledSpan};
use mdviewer::theme::Theme;
use mdviewer::viewer::{
    apply_search_highlights, format_position, render_frame, scroll_to_match, Action, Key, SearchState, Viewer,
    ViewerEvent,
};

fn line(text: &str) -> Line {
    Line { spans: vec![StyledSpan { text: text.to_string(), style: Style::default() }] }
}

fn numbered(n: usize) -> Vec<Line> {
    (0..n).map(|i| line(&format!("line {i}"))).collect()
}

fn text_of(l: &Line) -> String {
    l.spans.iter().map(|s| s.text.as_str()).collect()
}

#[test]
fn position_label_all_top_bottom_and_percent() {
    assert_eq!(format_position(&numbered(5), 0, 10), "All");
    assert_eq!(format_position(&numbered(100), 0, 10), "Top");
    assert_eq!(format_position(&numbered(100), 90, 10), "Bot");
    assert_eq!(format_position(&numbered(100), 95, 10), "Bot");
    assert_eq!(format_position(&numbered(100), 40, 10), "50%");
    assert_eq!(format_position(&numbered(300), 7, 10), "5%");
}

fn searched(lines: &[Line], query: &str) -> SearchState {
    let mut s = SearchState::new();
    s.input_buf = query.to_string();
    s.execute(&lines.to_vec());
    s
}

#[test]
fn search_finds_every_case_insensitive_occurrence() {
    let lines = vec![line("Hello world"), line("say HELLO hello"), line("nothing")];
    let s = searched(&lines, "hello");
    let found: Vec<(usize, usize, usize)> = s.matches.iter().map(|m| (m.line, m.start, m.end)).collect();
    assert_eq!(found, vec![(0, 0, 5), (1, 4, 9), (1, 10, 15)]);
    assert_eq!(s.current_idx, 0);
    assert!(s.has_results());
}

#[test]
fn search_counts_columns_in_characters() {
    let lines = vec![line("héllo wörld wörld")];
    let s = searched(&lines, "WÖRLD");
    let found: Vec<(usize, usize, usize)> = s.matches.iter().map(|m| (m.line, m.start, m.end)).collect();
    assert_eq!(found, vec![(0, 6, 11), (0, 12, 17)]);
}

#[test]
fn next_and_prev_wrap_around() {
    let lines = vec![line("a a"), line("a")];
    let mut s = searched(&lines, "a");
    assert_eq!(s.matches.len(), 3);
    s.next();
    assert_eq!(s.current_idx, 1);
    s.next();
    s.next();
    assert_eq!(s.current_idx, 0);
    s.prev();
    assert_eq!(s.current_idx, 2);
    assert_eq!(s.current_line(), Some(1));
    s.next();
    s.prev();
    assert_eq!(s.current_idx, 2);
}

#[test]
fn jump_nearest_picks_first_match_in_view_or_below() {
    let lines = vec![line("x"), line("y"), line("x"), line("x")];
    let mut s = searched(&lines, "x");
    s.jump_nearest(1);
    assert_eq!(s.current_idx, 1);
    s.jump_nearest(10);
    assert_eq!(s.current_idx, 0);
}

#[test]
fn highlights_mark_the_current_match() {
    let lines = vec![line("ab ab"), line("ab")];
    let mut s = searched(&lines, "ab");
    s.next();
    assert_eq!(s.highlights_for_line(0), vec![(0, 2, false), (3, 5, true)]);
    assert_eq!(s.highlights_for_line(1), vec![(0, 2, false)]);
    assert_eq!(s.highlights_for_line(2), vec![]);
}

#[test]
fn empty_query_finds_nothing_and_clear_forgets() {
    let lines = vec![line("abc")];
    let s = searched(&lines, "");
    assert!(s.matches.is_empty());
    assert!(!s.has_results());
    let mut s = searched(&lines, "b");
    s.clear();
    assert!(!s.has_results());
    assert!(s.matches.is_empty());
    assert_eq!(s.current_line(), None);
}

#[test]
fn scroll_to_match_brings_the_match_into_view() {
    let lines = numbered(100);
    let mut lines2 = lines.clone();
    lines2[50] = line("target");
    let s = searched(&lines2, "target");
    let mut offset = 0;
    scroll_to_match(&s, &mut offset, 10, 90);
    assert_eq!(offset, 47);
    let mut offset = 45;
    scroll_to_match(&s, &mut offset, 10, 90);
    assert_eq!(offset, 45);
    let mut offset = 60;
    scroll_to_match(&s, &mut offset, 10, 40);
    assert_eq!(offset, 40);
}

#[test]
fn highlights_split_spans_at_match_edges() {
    let theme = Theme::dark();
    let spans = vec![
        StyledSpan { text: "Hello ".to_string(), style: Style::default() },
        StyledSpan { text: "world".to_string(), style: Style::default() },
    ];
    let out = apply_search_highlights(&spans, &vec![(4, 8, true)], &theme);
    let texts: Vec<&str> = out.iter().map(|s| s.text.as_str()).collect();
    assert_eq!(texts, vec!["Hell", "o ", "wo", "rld"]);
    assert_eq!(out[0].style.bg, None);
    assert_eq!(out[1].style.bg, Some(theme.search_current_bg));
    assert_eq!(out[1].style.fg, Some(theme.search_current_fg));
    assert!(out[1].style.bold);
    assert_eq!(out[2].style.bg, Some(theme.search_current_bg));
    assert_eq!(out[3].style.bg, None);
    let out = apply_search_highlights(&spans, &vec![(0, 3, false)], &theme);
    assert_eq!(out[0].text, "Hel");
    assert_eq!(out[0].style.bg, Some(theme.search_match_bg));
    assert!(!out[0].style.bold);
}

#[test]
fn frame_has_borders_around_the_viewport() {
    let theme = Theme::dark();
    let lines = numbered(3);
    let search = SearchState::new();
    let rows = render_frame(&lines, 0, 20, 4, "a.md", &search, &theme);
    assert_eq!(rows.len(), 6);
    assert_eq!(text_of(&rows[0]), "╭─ a.md ───────────╮");
    assert_eq!(text_of(&rows[0]).chars().count(), 20);
    assert!(text_of(&rows[1]).contains("line 0"));
    assert!(text_of(&rows[3]).contains("line 2"));
    assert!(text_of(&rows[5]).contains(" All "));
}

#[test]
fn keys_scroll_within_the_document() {
    let lines = numbered(100);
    let mut v = Viewer::new(80, 12);
    assert_eq!(v.viewport(), 10);
    assert_eq!(v.handle(ViewerEvent::Key(Key::Char('j'), false), &lines), Action::Continue);
    assert_eq!(v.offset, 1);
    v.handle(ViewerEvent::Key(Key::End, false), &lines);
    assert_eq!(v.offset, 90);
    v.handle(ViewerEvent::Key(Key::Down, false), &lines);
    assert_eq!(v.offset, 90);
    v.handle(ViewerEvent::Key(Key::PageUp, false), &lines);
    assert_eq!(v.offset, 80);
    v.handle(ViewerEvent::Key(Key::Char('g'), false), &lines);
    assert_eq!(v.offset, 0);
    v.handle(ViewerEvent::Key(Key::Char('k'), false), &lines);
    assert_eq!(v.offset, 0);
    v.handle(ViewerEvent::Key(Key::Char(' '), false), &lines);
    assert_eq!(v.offset, 10);
    v.handle(ViewerEvent::Key(Key::Char('d'), false), &lines);
    assert_eq!(v.offset, 15);
    v.handle(ViewerEvent::Key(Key::Char('d'), true), &lines);
    assert_eq!(v.offset, 20);
    v.handle(ViewerEvent::Key(Key::Char('u'), false), &lines);
    assert_eq!(v.offset, 15);
    v.handle(ViewerEvent::Key(Key::Char('u'), true), &lines);
    assert_eq!(v.offset, 10);
    v.handle(ViewerEvent::Key(Key::Char('d'), true), &lines);
    v.handle(ViewerEvent::Key(Key::Char('d'), false), &lines);
    assert_eq!(v.offset, 20);
    v.handle(ViewerEvent::ScrollDown, &lines);
    assert_eq!(v.offset, 23);
    v.handle(ViewerEvent::ScrollUp, &lines);
    assert_eq!(v.offset, 20);
}

#[test]
fn keys_quit_toggle_and_resize() {
    let lines = numbered(5);
    let mut v = Viewer::new(80, 24);
    assert_eq!(v.handle(ViewerEvent::Key(Key::Char('c'), true), &lines), Action::Quit);
    assert_eq!(v.handle(ViewerEvent::Key(Key::Char('t'), false), &lines), Action::ThemeToggled);
    assert_eq!(v.handle(ViewerEvent::Resize(100, 30), &lines), Action::Resized);
    assert_eq!((v.cols, v.rows), (100, 30));
    assert_eq!(v.handle(ViewerEvent::Key(Key::Esc, false), &lines), Action::Quit);
    assert_eq!(v.handle(ViewerEvent::Key(Key::Char('q'), false), &lines), Action::Quit);
}

#[test]
fn search_typed_into_the_pager() {
    let mut lines = numbered(100);
    lines[60] = line("needle here");
    let mut v = Viewer::new(80, 12);
    v.handle(ViewerEvent::Key(Key::Char('/'), false), &lines);
    assert!(v.search.input_active);
    for c in "needx".chars() {
        v.handle(ViewerEvent::Key(Key::Char(c), false), &lines);
    }
    v.handle(ViewerEvent::Key(Key::Backspace, false), &lines);
    assert_eq!(v.search.input_buf, "need");
    assert_eq!(v.handle(ViewerEvent::Key(Key::Char('q'), false), &lines), Action::Continue);
    v.handle(ViewerEvent::Key(Key::Backspace, false), &lines);
    v.handle(ViewerEvent::Key(Key::Enter, false), &lines);
    assert!(!v.search.input_active);
    assert_eq!(v.search.matches.len(), 1);
    assert_eq!(v.offset, 57);
    assert_eq!(v.handle(ViewerEvent::Key(Key::Esc, false), &lines), Action::Continue);
    assert!(!v.search.has_results());
}

#[test]
fn search_queries_are_regular_expressions() {
    let lines = vec![line("abc aXc"), line("ac ABC")];
    let s = searched(&lines, "a.c");
    let found: Vec<(usize, usize, usize)> = s.matches.iter().map(|m| (m.line, m.start, m.end)).collect();
    assert_eq!(found, vec![(0, 0, 3), (0, 4, 7), (1, 3, 6)]);
    let s = searched(&[line("wörld 42 x7")], "[0-9]+");
    let found: Vec<(usize, usize, usize)> = s.matches.iter().map(|m| (m.line, m.start, m.end)).collect();
    assert_eq!(found, vec![(0, 6, 8), (0, 10, 11)]);
}

#[test]
fn an_invalid_pattern_is_searched_as_text() {
    let lines = vec![line("f(x) and F(y)")];
    let s = searched(&lines, "f(");
    let found: Vec<(usize, usize, usize)> = s.matches.iter().map(|m| (m.line, m.start, m.end)).collect();
    assert_eq!(found, vec![(0, 0, 2), (0, 9, 11)]);
}
