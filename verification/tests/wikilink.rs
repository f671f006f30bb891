use std::borrow::Cow;

use mdviewer::wikilink::preprocess;

#[test]
fn preprocess_leaves_plain_text_borrowed() {
    let input = "Just plain text, no links here.";
    assert!(matches!(preprocess(input), Cow::Borrowed(_)));
}

#[test]
fn preprocess_rewrites_bare_wikilink() {
    let out = preprocess("See [[getting-started]] for more.");
    assert_eq!(
        out,
        "See [getting-started](<wikilink:getting-started>) for more."
    );
}

#[test]
fn preprocess_rewrites_piped_wikilink() {
    let out = preprocess("[[getting-started|Getting Started at Kry]]");
    assert_eq!(out, "[Getting Started at Kry](<wikilink:getting-started>)");
}

#[test]
fn preprocess_rewrites_heading_anchor_slugified() {
    let out = preprocess("[[decision-records#Some Heading]]");
    assert_eq!(
        out,
        "[decision-records](<wikilink:decision-records#some-heading>)"
    );
}

#[test]
fn preprocess_rewrites_nested_path_target() {
    let out = preprocess("[[handbook/processes/processes|Processes]]");
    assert_eq!(out, "[Processes](<wikilink:handbook/processes/processes>)");
}

#[test]
fn preprocess_rewrites_image_embed() {
    let out = preprocess("![[photo.png]]");
    assert_eq!(out, "![photo.png](<photo.png>)");
}

#[test]
fn preprocess_rewrites_image_embed_with_alt() {
    let out = preprocess("![[photo.png|A nice photo]]");
    assert_eq!(out, "![A nice photo](<photo.png>)");
}

#[test]
fn preprocess_leaves_fenced_code_block_untouched() {
    let input = "```\n[[foo|bar]]\n```\n";
    assert_eq!(preprocess(input), input);
}

#[test]
fn preprocess_leaves_inline_code_untouched() {
    let input = "Use `[[foo|bar]]` syntax.";
    assert_eq!(preprocess(input), input);
}

#[test]
fn preprocess_handles_wikilink_in_table_cell() {
    let out = preprocess("| [[note|Label]] | other |");
    assert_eq!(out, "| [Label](<wikilink:note>) | other |");
}

#[test]
fn preprocess_wraps_target_with_spaces() {
    let out = preprocess("[[Getting Started]]");
    assert_eq!(out, "[Getting Started](<wikilink:Getting Started>)");
}
