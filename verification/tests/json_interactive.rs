use mdviewer::json::{render_interactive, render_interactive_parsed, JsonError, JsonValue, NavItem};
use mdviewer::style::Line;
use mdviewer::theme::Theme;

fn num(t: &str) -> JsonValue {
    JsonValue::Number(t.to_string())
}

fn obj(entries: Vec<(&str, JsonValue)>) -> JsonValue {
    JsonValue::Object(entries.into_iter().map(|(k, v)| (k.to_string(), v)).collect())
}

fn texts(lines: &[Line]) -> Vec<String> {
    lines.iter().map(|l| l.spans.iter().map(|s| s.text.as_str()).collect()).collect()
}

fn navs(items: &[NavItem]) -> Vec<(usize, String)> {
    items.iter().map(|n| (n.line_index, n.path.clone())).collect()
}

fn view(v: JsonValue, open: &[&str]) -> (Vec<String>, Vec<(usize, String)>) {
    let open: Vec<String> = open.iter().map(|s| s.to_string()).collect();
    let (lines, nav) = render_interactive_parsed(&Ok(v), "", 80, &Theme::dark(), &open);
    (texts(&lines), navs(&nav))
}

fn sample() -> JsonValue {
    obj(vec![("a", num("1")), ("obj", obj(vec![("x", num("1"))])), ("list", JsonValue::Array(vec![num("1"), num("2")]))])
}

fn boxed_line(content: &str, card: usize) -> String {
    let pad = (card - 4).saturating_sub(content.chars().count());
    format!("  │  {}{}│", content, " ".repeat(pad))
}

#[test]
fn closed_nodes_show_toggles() {
    let (t, n) = view(sample(), &[]);
    assert_eq!(t, vec!["  a: 1", "", "  ▶ obj  1 keys", "", "  ▶ list  2 items"]);
    assert_eq!(n, vec![(2, "obj".to_string()), (4, "list".to_string())]);
}

#[test]
fn an_open_node_shows_its_card() {
    let (t, n) = view(sample(), &["obj"]);
    assert_eq!(t[2], "  ▼ obj  1 keys");
    assert_eq!(t[3], format!("  ╭{}╮", "─".repeat(72)));
    assert_eq!(t[4], boxed_line("x: 1", 74));
    assert_eq!(t[5], format!("  ╰{}╯", "─".repeat(72)));
    assert_eq!(t[6], "");
    assert_eq!(t[7], "  ▶ list  2 items");
    assert_eq!(t.len(), 8);
    assert_eq!(n, vec![(2, "obj".to_string()), (7, "list".to_string())]);
}

#[test]
fn nested_cards_narrow_and_paths_join_with_dots() {
    let v = obj(vec![("o", obj(vec![("p", obj(vec![("q", num("1"))]))]))]);
    let (t, n) = view(v.clone_value(), &["o", "o.p"]);
    assert_eq!(t[0], "  ▼ o  1 keys");
    assert_eq!(t[1], format!("  ╭{}╮", "─".repeat(72)));
    assert_eq!(t[2], boxed_line("▼ p  1 keys", 74));
    assert_eq!(t[3], boxed_line(&format!("  ╭{}╮", "─".repeat(65)), 74));
    assert_eq!(t[4], boxed_line(&boxed_line("q: 1", 67), 74));
    assert_eq!(t[5], boxed_line(&format!("  ╰{}╯", "─".repeat(65)), 74));
    assert_eq!(t[6], format!("  ╰{}╯", "─".repeat(72)));
    assert_eq!(n, vec![(0, "o".to_string()), (2, "o.p".to_string())]);
    let (t, n) = view(v, &["o.p"]);
    assert_eq!(t, vec!["  ▶ o  1 keys"]);
    assert_eq!(n, vec![(0, "o".to_string())]);
}

trait CloneValue {
    fn clone_value(&self) -> JsonValue;
}

impl CloneValue for JsonValue {
    fn clone_value(&self) -> JsonValue {
        match self {
            JsonValue::Null => JsonValue::Null,
            JsonValue::Bool(b) => JsonValue::Bool(*b),
            JsonValue::Number(n) => JsonValue::Number(n.clone()),
            JsonValue::Str(s) => JsonValue::Str(s.clone()),
            JsonValue::Array(a) => JsonValue::Array(a.iter().map(|x| x.clone_value()).collect()),
            JsonValue::Object(m) => JsonValue::Object(m.iter().map(|(k, x)| (k.clone(), x.clone_value())).collect()),
        }
    }
}

#[test]
fn a_root_array_is_a_card() {
    let (t, n) = view(JsonValue::Array(vec![num("1"), num("2")]), &[]);
    assert_eq!(t, vec![
        format!("  ╭{}╮", "─".repeat(72)),
        boxed_line("• 1", 74),
        boxed_line("• 2", 74),
        format!("  ╰{}╯", "─".repeat(72)),
    ]);
    assert!(n.is_empty());
}

#[test]
fn mixed_items_open_by_index_path() {
    let v = JsonValue::Array(vec![num("1"), obj(vec![("k", num("2"))])]);
    let (t, n) = view(v, &["[1]"]);
    assert_eq!(t[1], boxed_line("[0] 1", 74));
    assert_eq!(t[2], boxed_line("", 74));
    assert_eq!(t[3], boxed_line("▼ [1]  1 keys", 74));
    assert_eq!(t[5], boxed_line(&boxed_line("k: 2", 67), 74));
    assert_eq!(n, vec![(3, "[1]".to_string())]);
}

#[test]
fn tables_fit_inside_cards() {
    let v = JsonValue::Array(vec![obj(vec![("a", num("1"))]), obj(vec![("a", num("2"))])]);
    let (t, _) = view(v, &[]);
    assert_eq!(t[1], boxed_line("┌─────┐", 74));
    assert_eq!(t[2], boxed_line("│ a   │", 74));
    assert_eq!(t[4], boxed_line("│ 1   │", 74));
    assert_eq!(t.len(), 8);
}

#[test]
fn scalars_and_empty_documents() {
    assert_eq!(view(JsonValue::Str("x".to_string()), &[]).0, vec!["  \"x\""]);
    assert_eq!(view(JsonValue::Array(vec![]), &[]).0, vec!["  "]);
    assert!(view(obj(vec![]), &[]).0.is_empty());
}

#[test]
fn errors_have_no_toggles() {
    let err = JsonError { line: 1, column: 1, message: "m".to_string() };
    let (lines, nav) = render_interactive_parsed(&Err(err), "x", 80, &Theme::dark(), &Vec::new());
    assert_eq!(texts(&lines)[0], "  Invalid JSON");
    assert!(nav.is_empty());
}

#[test]
fn explorer_parses_its_text() {
    let (lines, nav) = render_interactive("{\"a\": {\"b\": 1}}", 80, &Theme::dark(), &Vec::new()).unwrap();
    assert_eq!(nav.len(), 1);
    assert_eq!(nav[0].path, "a");
    assert!(!lines.is_empty());
    let (lines, nav) = render_interactive("{", 80, &Theme::dark(), &Vec::new()).unwrap();
    assert_eq!(texts(&lines)[0], "  Invalid JSON");
    assert!(nav.is_empty());
}
