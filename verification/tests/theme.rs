use mdviewer::style::Color;
use mdviewer::theme::{is_hex_splittable, overrides_from, parse_hex_color, theme_file_overrides, Theme};

#[test]
fn dark_and_light_palettes() {
    let d = Theme::dark();
    assert!(d.is_dark);
    assert_eq!(d.bg, Color::Rgb { r: 30, g: 30, b: 46 });
    assert_eq!(d.search_match_bg, Color::Rgb { r: 100, g: 80, b: 0 });
    assert_eq!(d.syntect_theme, "base16-ocean.dark");
    let l = Theme::light();
    assert!(!l.is_dark);
    assert_eq!(l.bg, Color::Rgb { r: 239, g: 241, b: 245 });
    assert_eq!(l.json_focus_bg, Color::Rgb { r: 220, g: 224, b: 232 });
}

#[test]
fn toggle_switches_palette_and_back() {
    let none: Vec<(String, Color)> = Vec::new();
    let d = Theme::dark();
    let l = d.toggle(&none);
    assert!(!l.is_dark);
    assert_eq!(l.bg, Theme::light().bg);
    let back = l.toggle(&none);
    assert!(back.is_dark);
    assert_eq!(back.fg, d.fg);
    assert_eq!(back.json_path, d.json_path);
}

#[test]
fn overrides_replace_named_colours_only() {
    let ov = vec![("bg".to_string(), Color::Red), ("nonsense".to_string(), Color::Blue)];
    let d = Theme::dark_with(&ov);
    assert_eq!(d.bg, Color::Red);
    assert_eq!(d.fg, Theme::dark().fg);
    let l = Theme::dark().toggle(&ov);
    assert_eq!(l.bg, Color::Red);
    assert!(!l.is_dark);
}

#[test]
fn hex_colours() {
    assert_eq!(parse_hex_color("#ff8000"), Some(Color::Rgb { r: 255, g: 128, b: 0 }));
    assert_eq!(parse_hex_color("abcdef"), Some(Color::Rgb { r: 171, g: 205, b: 239 }));
    assert_eq!(parse_hex_color("##abcdef"), Some(Color::Rgb { r: 171, g: 205, b: 239 }));
    assert_eq!(parse_hex_color("ABCDEF"), Some(Color::Rgb { r: 171, g: 205, b: 239 }));
    assert_eq!(parse_hex_color("#12345"), None);
    assert_eq!(parse_hex_color("#1234567"), None);
    assert_eq!(parse_hex_color("zz0010"), Some(Color::Rgb { r: 0, g: 0, b: 16 }));
}

#[test]
fn hex_text_that_would_cut_a_character() {
    assert!(is_hex_splittable("#ff8000"));
    assert!(is_hex_splittable("short"));
    assert!(is_hex_splittable("é1234"));
    assert_eq!(parse_hex_color("é1234"), Some(Color::Rgb { r: 0, g: 0x12, b: 0x34 }));
    assert!(!is_hex_splittable("aé123"));
}

#[test]
fn theme_files_give_the_colours_they_can_read() {
    let o = theme_file_overrides("bg = \"#112233\"\nfg = \"zz\"\n").unwrap();
    assert_eq!(o, vec![("bg".to_string(), Color::Rgb { r: 0x11, g: 0x22, b: 0x33 })]);
    assert!(theme_file_overrides("bg = [").unwrap().is_empty());
    assert!(theme_file_overrides("bg = \"a\u{e9}\u{20ac}\"\n").is_none());
    let t = Theme::dark_with(&o);
    assert_eq!(t.bg, Color::Rgb { r: 0x11, g: 0x22, b: 0x33 });
}

#[test]
fn overrides_keep_entry_order_and_skip_non_colours() {
    let es = vec![
        ("a".to_string(), "#000001".to_string()),
        ("b".to_string(), "blue".to_string()),
        ("c".to_string(), "0000zz".to_string()),
    ];
    assert_eq!(
        overrides_from(&es),
        vec![("a".to_string(), Color::Rgb { r: 0, g: 0, b: 1 }), ("c".to_string(), Color::Rgb { r: 0, g: 0, b: 0 })]
    );
}
