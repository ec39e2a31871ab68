use pinyin_ime::correction_prefs::{get_correction_prefs, parse_correction_section, CorrectionLevel};
use pinyin_ime::custom_shortcuts::{lookup_detailed, parse_shortcuts_section, ShortcutCandidate};

#[test]
fn parse_correction_level() {
    let prefs = parse_correction_section("[correction]\nenabled=true\nlevel=strong\n");
    assert!(prefs.enabled);
    assert_eq!(prefs.level, CorrectionLevel::Strong);

    let prefs = parse_correction_section("[correction]\nmode=light\n");
    assert_eq!(prefs.level, CorrectionLevel::Light);
}

#[test]
fn correction_defaults_to_enabled_and_strong() {
    let prefs = parse_correction_section("");
    assert!(prefs.enabled);
    assert_eq!(prefs.level, CorrectionLevel::Strong);
}

#[test]
fn correction_keys_outside_the_section_are_ignored() {
    let prefs = parse_correction_section("[other]\nenabled=false\nlevel=light\n[Correction]\nstrategy = 中纠错\n");
    assert!(prefs.enabled);
    assert_eq!(prefs.level, CorrectionLevel::Medium);
}

#[test]
fn correction_values_ignore_case_and_whitespace() {
    let prefs = get_correction_prefs("  [ CORRECTION ]  \r\n ENABLED = Off \r\n; comment\n# comment\nLevel= LOW\n");
    assert!(!prefs.enabled);
    assert_eq!(prefs.level, CorrectionLevel::Light);
}

#[test]
fn correction_unknown_values_keep_the_previous_setting() {
    let prefs = parse_correction_section("[correction]\nenabled=maybe\nlevel=extreme\nlevel\n");
    assert!(prefs.enabled);
    assert_eq!(prefs.level, CorrectionLevel::Strong);
    let prefs = parse_correction_section("[correction]\nenabled=0\nenabled=perhaps\nlevel=轻\n");
    assert!(!prefs.enabled);
    assert_eq!(prefs.level, CorrectionLevel::Light);
}

#[test]
fn shortcuts_parse_keys_and_phrase_lists() {
    let text = "\u{feff}[Shortcuts]\n Addr = 北京市 | 上海市 || \n;x\n# c\nsig=line\\nbreak|tab\\there|back\\\\slash|odd\\q|end\\\nempty= | \n=orphan\n[other]\nk=v\n";
    let defs = parse_shortcuts_section(text);
    assert_eq!(
        defs,
        vec![
            ("addr".to_string(), vec!["北京市".to_string(), "上海市".to_string()]),
            (
                "sig".to_string(),
                vec![
                    "line\nbreak".to_string(),
                    "tab\there".to_string(),
                    "back\\slash".to_string(),
                    "odd\\q".to_string(),
                    "end\\".to_string(),
                ]
            ),
        ]
    );
}

#[test]
fn shortcuts_semicolon_lines_with_a_value_are_kept() {
    let defs = parse_shortcuts_section("[shortcuts]\n;k=v\n");
    assert_eq!(defs, vec![(";k".to_string(), vec!["v".to_string()])]);
}

#[test]
fn shortcut_lookup_returns_the_first_definition() {
    let defs = vec![
        ("addr".to_string(), vec!["a".to_string(), "b".to_string()]),
        ("addr".to_string(), vec!["c".to_string()]),
    ];
    let found = lookup_detailed(&defs, "  ADDR ").expect("shortcut");
    assert_eq!(
        found,
        vec![
            ShortcutCandidate { phrase: "a".to_string(), source_key: "addr".to_string() },
            ShortcutCandidate { phrase: "b".to_string(), source_key: "addr".to_string() },
        ]
    );
    assert!(lookup_detailed(&defs, "   ").is_none());
    assert!(lookup_detailed(&defs, "other").is_none());
}
