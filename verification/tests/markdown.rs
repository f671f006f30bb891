use mdviewer::markdown::{render, render_events, HeadingLevel, MdEvent};
use mdviewer::style::{Color, Line};

fn texts(lines: &[Line]) -> Vec<String> {
    lines.iter().map(|l| l.spans.iter().map(|s| s.text.as_str()).collect()).collect()
}

#[test]
fn heading_and_paragraph() {
    let lines = render("# Title\n\nHello *world*\n");
    assert_eq!(texts(&lines), vec!["Title", &"═".repeat(20), "", "Hello world", ""]);
    assert_eq!(lines[0].spans[0].style.fg, Some(Color::Cyan));
    assert!(lines[0].spans[0].style.bold);
    assert!(lines[3].spans[1].style.italic);
    assert!(!lines[3].spans[0].style.italic);
}

#[test]
fn long_second_level_heading_is_underlined_to_its_width() {
    let lines = render("## A heading that is rather long\n");
    assert_eq!(texts(&lines)[1], "─".repeat("A heading that is rather long".chars().count()));
    assert_eq!(lines[1].spans[0].style.fg, Some(Color::Green));
    let lines = render("### Three\n");
    assert_eq!(texts(&lines), vec!["Three", ""]);
    assert_eq!(lines[0].spans[0].style.fg, Some(Color::Yellow));
}

#[test]
fn lists_get_bullets_and_numbers() {
    assert_eq!(texts(&render("- a\n- b\n")), vec!["  • a", "  • b", ""]);
    assert_eq!(texts(&render("3. x\n4. y\n")), vec!["  3. x", "  4. y", ""]);
    // a nested list starts on the line of its parent item
    assert_eq!(texts(&render("- a\n  - b\n")), vec!["  • a    • b", ""]);
}

#[test]
fn task_markers() {
    assert_eq!(texts(&render("- [x] done\n- [ ] todo\n")), vec!["  • ☑ done", "  • ☐ todo", ""]);
}

#[test]
fn links_show_their_target() {
    let lines = render("[docs](http://x.org)\n");
    assert_eq!(texts(&lines), vec!["docs (http://x.org)", ""]);
    assert_eq!(lines[0].spans[0].style.fg, Some(Color::Blue));
    assert!(lines[0].spans[0].style.underline);
    assert_eq!(lines[0].spans[1].style.fg, Some(Color::DarkGrey));
}

#[test]
fn inline_code_and_breaks() {
    assert_eq!(texts(&render("use `x` here\nnext\n")), vec!["use  x  here next", ""]);
    assert_eq!(texts(&render("one  \ntwo\n")), vec!["one", "two", ""]);
}

#[test]
fn quotes_carry_a_bar() {
    let lines = render("> quoted\n");
    assert_eq!(texts(&lines), vec!["  │ quoted", "  │", ""]);
    assert!(lines[0].spans[1].style.dim);
}

#[test]
fn rules_and_strikethrough() {
    let lines = render("a\n\n---\n\n~~gone~~\n");
    assert_eq!(texts(&lines), vec!["a", "", &"─".repeat(60), "", "gone", ""]);
    assert!(lines[4].spans[0].style.strikethrough);
}

#[test]
fn code_block_is_framed_and_highlighted() {
    let lines = render("```rust\nfn main() {}\n```\n");
    let t = texts(&lines);
    assert_eq!(t[0], format!("  ╭─ rust {}╮", "─".repeat(50)));
    assert_eq!(t[1], "  │ fn main() {}");
    assert_eq!(t[2], format!("  ╰{}╯", "─".repeat(57)));
    assert_eq!(t[3], "");
    assert_eq!(lines.len(), 4);
    // the highlighter splits the line and colours the pieces
    assert!(lines[1].spans.len() > 2);
    assert!(lines[1].spans[1..].iter().all(|s| matches!(s.style.fg, Some(Color::Rgb { .. }))));
}

#[test]
fn indented_code_block_has_no_label() {
    let lines = render("    plain\n    text\n");
    let t = texts(&lines);
    assert_eq!(t[0], format!("  ╭─{}╮", "─".repeat(56)));
    assert_eq!(t[1], "  │ plain");
    assert_eq!(t[2], "  │ text");
    assert_eq!(t[3], format!("  ╰{}╯", "─".repeat(57)));
}

#[test]
fn events_render_without_a_parser() {
    let events = vec![
        MdEvent::StartHeading(HeadingLevel::H2),
        MdEvent::Text("Hi".to_string()),
        MdEvent::EndHeading(HeadingLevel::H2),
        MdEvent::Text("tail".to_string()),
    ];
    let lines = render_events(events);
    assert_eq!(texts(&lines), vec!["Hi", &"─".repeat(20), "", "tail"]);
}

#[test]
fn empty_document_renders_nothing() {
    assert!(render("").is_empty());
    assert!(render_events(Vec::new()).is_empty());
}

#[test]
fn light_background_uses_the_light_syntax_theme() {
    let doc = "```rust\nfn main() {}\n```\n";
    let dark = mdviewer::markdown::render_with(doc, true);
    let light = mdviewer::markdown::render_with(doc, false);
    let text = |ls: &Vec<mdviewer::style::Line>| -> Vec<String> {
        ls.iter().map(|l| l.spans.iter().map(|s| s.text.as_str()).collect()).collect()
    };
    assert_eq!(text(&dark), text(&light));
    let colours = |ls: &Vec<mdviewer::style::Line>| -> Vec<Option<mdviewer::style::Color>> {
        ls[1].spans.iter().map(|s| s.style.fg).collect()
    };
    assert_ne!(colours(&dark), colours(&light));
    assert_eq!(text(&mdviewer::markdown::render(doc)), text(&dark));
    assert_eq!(colours(&mdviewer::markdown::render(doc)), colours(&dark));
}
