use mdviewer::config::HideConfig;

fn hiding(langs: &[&str]) -> HideConfig {
    HideConfig {
        images: false,
        code_languages: langs.iter().map(|s| s.to_string()).collect(),
    }
}

#[test]
fn matches_plain_language() {
    assert!(hiding(&["dataviewjs"]).hides_language("dataviewjs"));
}

#[test]
fn ignores_attributes_after_the_language() {
    assert!(hiding(&["dataviewjs"]).hides_language("dataviewjs foo=bar"));
}

#[test]
fn matching_is_case_insensitive() {
    assert!(hiding(&["DataviewJS"]).hides_language("dataviewjs"));
}

#[test]
fn does_not_match_other_languages() {
    assert!(!hiding(&["dataviewjs"]).hides_language("rust"));
}

#[test]
fn does_not_match_a_language_prefix() {
    assert!(!hiding(&["data"]).hides_language("dataviewjs"));
}

#[test]
fn unlabelled_blocks_are_never_hidden() {
    assert!(!hiding(&["dataviewjs"]).hides_language(""));
    assert!(!hiding(&["dataviewjs"]).hides_language("   "));
}

#[test]
fn empty_config_hides_nothing() {
    assert!(!HideConfig::default().hides_language("dataviewjs"));
}

#[test]
fn config_candidates_come_in_precedence_order() {
    let bases = vec!["/x/cfg".to_string(), "/home/u/.config/".to_string()];
    assert_eq!(
        mdviewer::config::config_candidates(&bases),
        vec![
            "/x/cfg/mdviewer/config.toml".to_string(),
            "/x/cfg/mdterm/config.toml".to_string(),
            "/home/u/.config/mdviewer/config.toml".to_string(),
            "/home/u/.config/mdterm/config.toml".to_string(),
        ]
    );
}
