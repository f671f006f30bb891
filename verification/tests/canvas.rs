use mdviewer::canvas::{Canvas, CardColors, CardDrawRow};
use mdviewer::style::Color;
use std::collections::HashSet;

fn row_text(c: &Canvas, y: usize) -> String {
    c.cells[y].iter().map(|cell| cell.ch).collect()
}

fn colors() -> CardColors {
    CardColors {
        border_fg: Some(Color::DarkGrey),
        title_fg: Some(Color::Cyan),
        key_fg: Some(Color::White),
        highlight_fg: Some(Color::Yellow),
        card_highlight_bg: None,
    }
}

fn rows() -> Vec<CardDrawRow> {
    vec![
        CardDrawRow { key: "id".to_string(), value_text: "42".to_string(), value_color: Some(Color::Red), is_connector: false },
        CardDrawRow { key: "next".to_string(), value_text: String::new(), value_color: None, is_connector: true },
    ]
}

#[test]
fn card_has_title_rows_and_borders() {
    let mut c = Canvas::new(14, 6);
    let ys = c.draw_card(1, 1, 12, "Card", &rows(), &colors(), &HashSet::new());
    assert_eq!(ys, vec![2, 3]);
    assert_eq!(row_text(&c, 0), " ".repeat(14));
    assert_eq!(row_text(&c, 1), " ╭─ Card ───╮ ");
    assert_eq!(row_text(&c, 2), " │ id   42  │ ");
    assert_eq!(row_text(&c, 3), " │ next ──▶ │ ");
    assert_eq!(row_text(&c, 4), " ╰──────────╯ ");
    assert_eq!(c.cells[2][8].fg, Some(Color::Red));
    assert_eq!(c.cells[2][3].fg, Some(Color::White));
    assert_eq!(c.cells[1][4].fg, Some(Color::Cyan));
    assert!(c.cells[3][5].is_node);
    assert!(!c.cells[0][0].is_node);
}

#[test]
fn highlighted_rows_take_the_highlight_colour() {
    let mut c = Canvas::new(14, 6);
    let mut lit = HashSet::new();
    lit.insert(0usize);
    c.draw_card(1, 1, 12, "Card", &rows(), &colors(), &lit);
    assert_eq!(c.cells[2][3].fg, Some(Color::Yellow));
    assert_eq!(c.cells[2][8].fg, Some(Color::Yellow));
    assert_eq!(c.cells[3][3].fg, Some(Color::White));
}

#[test]
fn long_titles_and_values_are_cut() {
    let mut c = Canvas::new(10, 4);
    let r = vec![CardDrawRow {
        key: "k".to_string(),
        value_text: "abcdefgh".to_string(),
        value_color: None,
        is_connector: false,
    }];
    c.draw_card(0, 0, 10, "a long title", &r, &colors(), &HashSet::new());
    assert_eq!(row_text(&c, 0), "╭─ a lon ╮");
    assert_eq!(row_text(&c, 1), "│ k abcd │");
    assert_eq!(row_text(&c, 2), "╰────────╯");
}

#[test]
fn cards_clip_at_the_canvas_edge_and_need_four_columns() {
    let mut c = Canvas::new(6, 3);
    c.draw_card(3, 1, 8, "T", &rows(), &colors(), &HashSet::new());
    assert_eq!(row_text(&c, 1), "   ╭─ ");
    assert_eq!(row_text(&c, 2), "   │ i");
    let mut d = Canvas::new(6, 3);
    let ys = d.draw_card(0, 0, 3, "T", &rows(), &colors(), &HashSet::new());
    assert!(ys.is_empty());
    assert_eq!(row_text(&d, 0), "      ");
}

#[test]
fn node_box_is_centred_with_its_label() {
    let mut c = Canvas::new(9, 3);
    c.draw_node(4, 0, 9, "ab", mdviewer::diagram::NodeShape::Rounded, Some(Color::DarkGrey), Some(Color::White));
    assert_eq!(row_text(&c, 0), "╭───────╮");
    assert_eq!(row_text(&c, 1), "│  ab   │");
    assert_eq!(row_text(&c, 2), "╰───────╯");
    assert!(c.cells[1][3].is_node);
    assert_eq!(c.cells[1][3].fg, Some(Color::White));
    assert_eq!(c.cells[0][0].fg, Some(Color::DarkGrey));
}

#[test]
fn bent_top_down_edge_turns_on_the_bus_row() {
    let mut c = Canvas::new(7, 6);
    c.draw_edge_td(1, 0, 5, 5, Some("x"), Some(Color::Blue), Some(Color::Yellow), None);
    assert_eq!(row_text(&c, 0), "       ");
    assert_eq!(row_text(&c, 1), " │     ");
    assert_eq!(row_text(&c, 2), " │x    ");
    assert_eq!(row_text(&c, 3), " └───┐ ");
    assert_eq!(row_text(&c, 4), "     ▼ ");
    assert_eq!(row_text(&c, 5), "       ");
    assert_eq!(c.cells[3][3].fg, Some(Color::Blue));
    assert_eq!(c.cells[2][2].fg, Some(Color::Yellow));
}

#[test]
fn straight_left_right_edge_ends_in_an_arrow() {
    let mut c = Canvas::new(8, 3);
    c.draw_edge_lr(0, 1, 7, 1, Some("go"), Some(Color::Blue), Some(Color::Yellow), None);
    assert_eq!(row_text(&c, 0), "  go    ");
    assert_eq!(row_text(&c, 1), " ─────▶ ");
    assert_eq!(c.cells[0][2].fg, Some(Color::Yellow));
}
