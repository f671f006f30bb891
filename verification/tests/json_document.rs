use mdviewer::json::{pad_or_truncate, render, render_parsed, should_render_as_table, tables_cut_cleanly, JsonError, JsonValue};
use mdviewer::style::Line;
use mdviewer::theme::Theme;

fn s(t: &str) -> JsonValue {
    JsonValue::Str(t.to_string())
}

fn num(t: &str) -> JsonValue {
    JsonValue::Number(t.to_string())
}

fn obj(entries: Vec<(&str, JsonValue)>) -> JsonValue {
    JsonValue::Object(entries.into_iter().map(|(k, v)| (k.to_string(), v)).collect())
}

fn texts(lines: &[Line]) -> Vec<String> {
    lines.iter().map(|l| l.spans.iter().map(|s| s.text.as_str()).collect()).collect()
}

fn doc(v: JsonValue, width: usize) -> Vec<Line> {
    render_parsed(&Ok(v), "", width, &Theme::dark())
}

#[test]
fn simple_entries_line_up() {
    let v = obj(vec![("n", num("3")), ("name", s("x")), ("nothing", JsonValue::Null), ("ok", JsonValue::Bool(true))]);
    let lines = doc(v, 80);
    assert_eq!(
        texts(&lines),
        vec!["  n:       3", "  name:    \"x\"", "  nothing: null", "  ok:      true"]
    );
    let th = Theme::dark();
    assert_eq!(lines[0].spans[0].style.fg, Some(th.json_key));
    assert!(lines[0].spans[0].style.bold);
    assert_eq!(lines[0].spans[1].style.fg, Some(th.json_number));
    assert_eq!(lines[1].spans[1].style.fg, Some(th.json_string));
    assert!(lines[2].spans[1].style.dim);
}

#[test]
fn nested_values_become_sections() {
    let v = obj(vec![
        ("a", num("1")),
        ("obj", obj(vec![("x", num("1"))])),
        ("list", JsonValue::Array(vec![num("1"), num("2")])),
    ]);
    let rule = "─".repeat(60);
    assert_eq!(
        texts(&doc(v, 80)),
        vec![
            "  a: 1", "", "# obj (1 keys)", &rule, "", "  x: 1", "", "# list (2 items)", &rule, "", "  • 1", "  • 2",
        ]
    );
}

#[test]
fn deeper_sections_get_labels() {
    let v = obj(vec![("top", obj(vec![("k", num("1")), ("inner", obj(vec![("z", JsonValue::Null)]))]))]);
    let lines = doc(v, 30);
    assert_eq!(
        texts(&lines),
        vec!["# top (2 keys)", &"─".repeat(30), "", "  k: 1", "", "  inner: (1 keys)", "    z: null"]
    );
    assert_eq!(lines[5].spans[0].style.fg, Some(Theme::dark().h2));
}

#[test]
fn mixed_arrays_are_indexed() {
    let v = JsonValue::Array(vec![
        num("1"),
        obj(vec![("k", JsonValue::Bool(true))]),
        JsonValue::Array(vec![num("2")]),
    ]);
    let rule = "─".repeat(60);
    assert_eq!(
        texts(&doc(v, 100)),
        vec!["# root (3 items)", &rule, "", "  [0] 1", "", "  [1]", "    k: true", "", "  [2] (1 items)", "    • 2"]
    );
}

#[test]
fn a_scalar_document() {
    let lines = doc(s("https://example.com"), 10);
    assert_eq!(texts(&lines), vec!["# value", &"─".repeat(10), "", "  \"https://example.com\""]);
    assert_eq!(lines[3].spans[1].style.link_url, Some("https://example.com".to_string()));
    assert!(lines[3].spans[1].style.underline);
}

#[test]
fn empty_containers_are_marked() {
    let v = obj(vec![("e", obj(vec![])), ("l", JsonValue::Array(vec![]))]);
    assert_eq!(texts(&doc(v, 80)), vec!["  e: {} empty", "  l: [] empty"]);
    assert_eq!(texts(&doc(JsonValue::Array(vec![]), 5)), vec!["# root", "─────", "", "  [] empty"]);
}

#[test]
fn alike_objects_make_a_table() {
    let v = JsonValue::Array(vec![
        obj(vec![("id", num("1")), ("name", s("a"))]),
        obj(vec![("id", num("2")), ("name", s("bb"))]),
    ]);
    let lines = doc(v, 80);
    let t = texts(&lines);
    assert_eq!(t[0], "# root (2 items)");
    assert_eq!(t[3], format!("  ┌─{}─┬─{}─┐", "─".repeat(3), "─".repeat(4)));
    assert_eq!(t[4], "  │ id  │ name │");
    assert_eq!(t[5], format!("  ├─{}─┼─{}─┤", "─".repeat(3), "─".repeat(4)));
    assert_eq!(t[6], "  │ 1   │ a    │");
    assert_eq!(t[7], "  │ 2   │ bb   │");
    assert_eq!(t[8], format!("  └─{}─┴─{}─┘", "─".repeat(3), "─".repeat(4)));
    assert_eq!(t.len(), 9);
    let th = Theme::dark();
    assert_eq!(lines[4].spans[1].style.fg, Some(th.table_header));
    assert!(lines[4].spans[1].style.bold);
    assert_eq!(lines[6].spans[1].style.fg, Some(th.json_number));
    assert_eq!(lines[6].spans[3].style.fg, Some(th.json_string));
}

#[test]
fn missing_keys_leave_empty_cells() {
    let v = JsonValue::Array(vec![
        obj(vec![("a", num("1")), ("b", JsonValue::Null)]),
        obj(vec![("b", JsonValue::Bool(false)), ("c", s("z"))]),
    ]);
    let t = texts(&doc(v, 80));
    assert_eq!(t[4], "  │ a   │ b     │ c   │");
    assert_eq!(t[6], "  │ 1   │ null  │     │");
    assert_eq!(t[7], "  │     │ false │ z   │");
}

#[test]
fn narrow_tables_shrink_their_columns() {
    let v = JsonValue::Array(vec![obj(vec![("a", s("xxxxxxxxxx"))]), obj(vec![("a", s("y"))])]);
    let t = texts(&doc(v, 12));
    assert_eq!(t[4], "  │ a      │");
    assert_eq!(t[6], "  │ xxxxx… │");
    assert_eq!(t[7], "  │ y      │");
}

#[test]
fn long_cells_are_cut_at_39_bytes() {
    let long = "abcdefghij".repeat(5);
    let v = JsonValue::Array(vec![obj(vec![("t", s(&long))]), obj(vec![("t", s("x"))])]);
    let t = texts(&doc(v, 200));
    assert_eq!(t[6], format!("  │ {}… │", &long[..39]));
}

#[test]
fn cuts_inside_a_character_are_detected() {
    let bad = format!("{}é{}", "a".repeat(38), "b".repeat(5));
    let good = format!("{}é{}", "a".repeat(37), "b".repeat(5));
    let table = |t: &str| JsonValue::Array(vec![obj(vec![("t", s(t))]), obj(vec![("t", s("x"))])]);
    assert!(!tables_cut_cleanly(&table(&bad)));
    assert!(tables_cut_cleanly(&table(&good)));
    assert!(tables_cut_cleanly(&obj(vec![("t", s(&bad))])));
    assert!(!tables_cut_cleanly(&obj(vec![("k", table(&bad))])));
}

#[test]
fn which_arrays_are_tables() {
    let one = JsonValue::Array(vec![obj(vec![("a", num("1"))])]);
    if let JsonValue::Array(items) = &one {
        assert!(!should_render_as_table(items));
    }
    let nested = vec![obj(vec![("a", obj(vec![]))]), obj(vec![("a", num("1"))])];
    assert!(!should_render_as_table(&nested));
    let sparse = vec![obj(vec![("a", num("1"))]), obj(vec![("b", num("1"))]), obj(vec![("c", num("1"))])];
    assert!(!should_render_as_table(&sparse));
    let ok = vec![obj(vec![("a", num("1")), ("b", num("2"))]), obj(vec![("b", num("1"))])];
    assert!(should_render_as_table(&ok));
}

#[test]
fn cells_are_padded_or_cut() {
    let c = |t: &str, w: usize| -> String { pad_or_truncate(&t.chars().collect::<Vec<char>>(), w).into_iter().collect() };
    assert_eq!(c("hello", 3), "he…");
    assert_eq!(c("ab", 4), "ab  ");
    assert_eq!(c("abc", 3), "abc");
    assert_eq!(c("abcd", 0), "…");
}

#[test]
fn cell_colours_follow_the_text() {
    let v = JsonValue::Array(vec![
        obj(vec![("v", s("-1.5e3"))]),
        obj(vec![("v", s("inf"))]),
        obj(vec![("v", s("1e"))]),
        obj(vec![("v", s("null"))]),
    ]);
    let th = Theme::dark();
    let lines = doc(v, 80);
    assert_eq!(lines[6].spans[1].style.fg, Some(th.json_number));
    assert_eq!(lines[7].spans[1].style.fg, Some(th.json_number));
    assert_eq!(lines[8].spans[1].style.fg, Some(th.json_string));
    assert_eq!(lines[9].spans[1].style.fg, Some(th.json_null));
}

#[test]
fn parse_errors_show_the_source() {
    let input = "{\n  \"a\": 1,\n  oops\n}";
    let err = JsonError { line: 3, column: 3, message: "key must be a string".to_string() };
    let lines = render_parsed(&Err(err), input, 40, &Theme::dark());
    assert_eq!(
        texts(&lines),
        vec![
            "  Invalid JSON",
            &"─".repeat(40),
            "",
            "  Error: key must be a string",
            "",
            "     1 │ {",
            "     2 │   \"a\": 1,",
            "     3 │   oops",
            "           ^",
            "     4 │ }",
            "",
        ]
    );
    assert!(lines[5].spans[0].style.dim);
    assert!(!lines[7].spans[0].style.dim);
}

#[test]
fn parse_error_context_is_two_lines_around_the_error() {
    let input = "a\r\nb\nc\nd\ne\nf\n";
    let err = JsonError { line: 5, column: 1, message: "m".to_string() };
    let t = texts(&render_parsed(&Err(err), input, 80, &Theme::dark()));
    assert_eq!(t[5], "     3 │ c");
    assert_eq!(t[7], "     5 │ e");
    assert_eq!(t[8], "         ^");
    assert_eq!(t[9], "     6 │ f");
    assert_eq!(t.len(), 11);
    let err = JsonError { line: 1, column: 2, message: "m".to_string() };
    let t = texts(&render_parsed(&Err(err), input, 80, &Theme::dark()));
    assert_eq!(t[5], "     1 │ a");
    assert_eq!(t[6], "          ^");
    assert_eq!(t[7], "     2 │ b");
    assert_eq!(t[8], "     3 │ c");
    assert_eq!(t.len(), 10);
}

#[test]
fn serde_errors_fit_the_report() {
    let input = "[1, 2";
    let e = serde_json::from_str::<serde_json::Value>(input).unwrap_err();
    let err = JsonError { line: e.line(), column: e.column(), message: e.to_string() };
    let t = texts(&render_parsed(&Err(err), input, 80, &Theme::dark()));
    assert_eq!(t[0], "  Invalid JSON");
    assert_eq!(t[5], "     1 │ [1, 2");
}

#[test]
fn documents_are_parsed_from_text() {
    let lines = render("{\"ok\": true, \"n\": 3}", 80, &Theme::dark()).unwrap();
    assert_eq!(texts(&lines), vec!["  n:  3", "  ok: true"]);
}

#[test]
fn malformed_text_reports_where_it_broke() {
    let lines = render("[1, 2", 80, &Theme::dark()).unwrap();
    let t = texts(&lines);
    assert_eq!(t[0], "  Invalid JSON");
    assert!(t[3].starts_with("  Error: EOF while parsing a list"));
    assert_eq!(t[5], "     1 │ [1, 2");
    assert_eq!(t[6], "             ^");
}

#[test]
fn narrow_tables_keep_their_lines_even() {
    let input = "[{\"name\": \"alpha beta gamma delta epsilon\", \"n\": 1}, {\"name\": \"x\", \"n\": 22}]";
    let lines = render(input, 24, &Theme::dark()).unwrap();
    let rows: Vec<String> = texts(&lines).into_iter().filter(|t| t.trim_start().starts_with(['┌', '│', '├', '└'])).collect();
    assert_eq!(rows.len(), 6);
    let n = rows[0].chars().count();
    assert!(rows.iter().all(|r| r.chars().count() == n));
    assert!(rows.iter().any(|r| r.contains('…')));
}
