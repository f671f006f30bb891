use mdviewer::export::{color_css, html_escape, is_safe_img_src, is_safe_url, to_html_page};
use mdviewer::style::{Color, Line, Style, StyledSpan};
use mdviewer::theme::Theme;

#[test]
fn escape_replaces_markup_characters() {
    assert_eq!(html_escape("<a href=\"x\">&'"), "&lt;a href=&quot;x&quot;&gt;&amp;&#39;");
    assert_eq!(html_escape("plain"), "plain");
    assert_eq!(html_escape(""), "");
}

#[test]
fn urls_with_safe_schemes_pass() {
    assert!(is_safe_url("https://example.com"));
    assert!(is_safe_url("HTTP://EXAMPLE.COM"));
    assert!(is_safe_url("  mailto:a@b.c  "));
    assert!(is_safe_url("#section"));
    assert!(is_safe_url("docs/page.html"));
}

#[test]
fn script_urls_are_refused() {
    assert!(!is_safe_url("javascript:alert(1)"));
    assert!(!is_safe_url("  JavaScript:alert(1)"));
    assert!(!is_safe_url("vbscript:x"));
    assert!(!is_safe_url("data:text/html,<b>"));
    assert!(!is_safe_url("foo:bar"));
}

#[test]
fn image_sources() {
    assert!(is_safe_img_src("data:image/png;base64,AAAA"));
    assert!(is_safe_img_src("img/cat.png"));
    assert!(is_safe_img_src("https://example.com/a.png"));
    assert!(!is_safe_img_src("data:text/html,x"));
    assert!(!is_safe_img_src("javascript:x"));
}

#[test]
fn colours_as_css() {
    assert_eq!(color_css(Color::Rgb { r: 255, g: 0, b: 16 }), "#ff0010");
    assert_eq!(color_css(Color::Rgb { r: 30, g: 30, b: 46 }), "#1e1e2e");
    assert_eq!(color_css(Color::Red), "#000");
}

#[test]
fn page_has_one_div_per_line() {
    let theme = Theme::dark();
    let mut link = Style::fg(Color::Blue);
    link.link_url = Some("https://x.org".to_string());
    let mut bad = Style::fg(Color::Blue);
    bad.link_url = Some("javascript:evil()".to_string());
    let lines = vec![
        Line::empty(),
        Line { spans: vec![StyledSpan { text: "a<b".to_string(), style: Style::default() }] },
        Line { spans: vec![StyledSpan { text: "go".to_string(), style: link }] },
        Line { spans: vec![StyledSpan { text: "no".to_string(), style: bad }] },
    ];
    let page = to_html_page(&lines, &theme);
    assert!(page.starts_with("<!DOCTYPE html>"));
    assert!(page.contains("background:#1e1e2e"));
    assert!(page.contains("<div class='line'>&nbsp;</div>\n"));
    assert!(page.contains("<div class='line'>a&lt;b</div>\n"));
    assert!(page.contains("<a href='https://x.org'"));
    assert!(!page.contains("javascript"));
    assert!(page.ends_with("</body></html>\n"));
    assert_eq!(page.matches("<div class='line'>").count(), 4);
}
