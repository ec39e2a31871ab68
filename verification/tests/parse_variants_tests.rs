use pinyin_ime::parse_variants::{
    correction_meta_for_parse_variant, explicit_separator_phrase_key_from_variants,
    infer_exact_complete_short_parse_intent, ParseVariant, ParseVariantSource,
};

fn variant(syllables: &[&str], tail: Option<&str>, source: ParseVariantSource, corrected: Option<&str>) -> ParseVariant {
    ParseVariant {
        syllables: syllables.iter().map(|s| s.to_string()).collect(),
        tail: tail.map(|t| t.to_string()),
        source,
        corrected_input: corrected.map(|c| c.to_string()),
    }
}

#[test]
fn exact_complete_split_gives_its_length() {
    let vs = vec![variant(&["shi", "shi"], None, ParseVariantSource::Exact, None)];
    assert_eq!(infer_exact_complete_short_parse_intent(&vs), Some(2));
}

#[test]
fn alternate_split_counts_when_no_exact_split_fits() {
    let vs = vec![
        variant(&["xi"], Some("a"), ParseVariantSource::Exact, None),
        variant(&["xi", "an"], None, ParseVariantSource::AlternateSplit, None),
    ];
    assert_eq!(infer_exact_complete_short_parse_intent(&vs), Some(2));
}

#[test]
fn long_or_incomplete_splits_give_no_length() {
    let vs = vec![
        variant(&["a", "b", "c", "d", "e"], None, ParseVariantSource::Exact, None),
        variant(&["ni", "hao"], Some("m"), ParseVariantSource::AlternateSplit, None),
    ];
    assert_eq!(infer_exact_complete_short_parse_intent(&vs), None);
}

#[test]
fn separator_input_gives_joined_key() {
    let vs = vec![
        variant(&["xian"], None, ParseVariantSource::Exact, None),
        variant(&["xi", "an"], None, ParseVariantSource::AlternateSplit, None),
    ];
    assert_eq!(explicit_separator_phrase_key_from_variants("xi'an", &vs), Some(("xian".to_string(), 2)));
    assert_eq!(explicit_separator_phrase_key_from_variants("xi an", &vs), Some(("xian".to_string(), 2)));
    assert_eq!(explicit_separator_phrase_key_from_variants("xian", &vs), None);
}

#[test]
fn separator_input_without_complete_split_gives_nothing() {
    let vs = vec![variant(&["xi"], Some("a"), ParseVariantSource::Exact, None)];
    assert_eq!(explicit_separator_phrase_key_from_variants("xi-a", &vs), None);
}

#[test]
fn keyboard_correction_label() {
    let v = variant(&["ni", "hao"], None, ParseVariantSource::KeyboardTypo, Some("nihao"));
    assert_eq!(
        correction_meta_for_parse_variant("nihoa", &v),
        Some("\u{7ea0}\u{9519}: nihoa->nihao\ttypo=1\tcorrection=keyboard\tcorrected_reading=nihao".to_string())
    );
}

#[test]
fn syllable_confusion_and_phonetic_labels() {
    let v = variant(&["shi"], None, ParseVariantSource::SyllableConfusion, Some("shi"));
    assert_eq!(
        correction_meta_for_parse_variant("si", &v),
        Some("\u{97f3}\u{8fd1}: si->shi\ttypo=1\tcorrection=syllable_confusion\tcorrected_reading=shi".to_string())
    );
    let v = variant(&["shi"], None, ParseVariantSource::PhoneticTypo, Some("shi"));
    assert_eq!(
        correction_meta_for_parse_variant("si", &v),
        Some("\u{7ea0}\u{9519}: si->shi\ttypo=1\tcorrection=phonetic\tcorrected_reading=shi".to_string())
    );
}

#[test]
fn no_label_without_a_real_correction() {
    let same = variant(&["ni", "hao"], None, ParseVariantSource::KeyboardTypo, Some("nihao"));
    assert_eq!(correction_meta_for_parse_variant("nihao", &same), None);
    let exact = variant(&["ni", "hao"], None, ParseVariantSource::Exact, Some("nihoa"));
    assert_eq!(correction_meta_for_parse_variant("nihao", &exact), None);
    let missing = variant(&["ni", "hao"], None, ParseVariantSource::KeyboardTypo, None);
    assert_eq!(correction_meta_for_parse_variant("nihoa", &missing), None);
}
