use pinyin_ime::intent::InputIntent;
use pinyin_ime::lookup_checks::{
    has_hot_two_char_abbrev_conflict, long_mixed_composition_intent, strict_lexicon_frequency_order_context,
};
use pinyin_ime::parse_variants::{ParseVariant, ParseVariantSource};

fn strings(items: &[&str]) -> Vec<String> {
    items.iter().map(|s| s.to_string()).collect()
}

fn exact(syllables: &[&str], tail: Option<&str>) -> ParseVariant {
    ParseVariant {
        syllables: strings(syllables),
        tail: tail.map(|t| t.to_string()),
        source: ParseVariantSource::Exact,
        corrected_input: None,
    }
}

#[test]
fn strict_context_for_abbreviation_needs_jianpin() {
    assert_eq!(
        strict_lexicon_frequency_order_context(InputIntent::ShortAbbrev, true, "bj", None),
        Some((InputIntent::ShortAbbrev, 2))
    );
    assert_eq!(strict_lexicon_frequency_order_context(InputIntent::ShortAbbrev, false, "bj", None), None);
}

#[test]
fn strict_context_for_full_pinyin_reads_spelling_split() {
    let vs = vec![exact(&["xian"], None), exact(&["xi", "an"], None)];
    assert_eq!(
        strict_lexicon_frequency_order_context(InputIntent::FullPinyin, true, "xian", Some(&vs)),
        Some((InputIntent::FullPinyin, 2))
    );
    let partial = vec![exact(&["xi"], Some("a"))];
    assert_eq!(strict_lexicon_frequency_order_context(InputIntent::FullPinyin, true, "xia", Some(&partial)), None);
    assert_eq!(strict_lexicon_frequency_order_context(InputIntent::FullPinyin, true, "xian", None), None);
    assert_eq!(strict_lexicon_frequency_order_context(InputIntent::English, true, "xian", Some(&vs)), None);
}

#[test]
fn hot_abbreviation_conflicts() {
    let hot = strings(&["世界", "手机"]);
    assert!(has_hot_two_char_abbrev_conflict("sj", Some(&hot)));
    assert!(!has_hot_two_char_abbrev_conflict("sj", Some(&strings(&["世界"]))));
    assert!(has_hot_two_char_abbrev_conflict("dt", Some(&strings(&["地铁"]))));
    assert!(!has_hot_two_char_abbrev_conflict("dt", Some(&hot)));
    assert!(!has_hot_two_char_abbrev_conflict("sj", None));
    assert!(!has_hot_two_char_abbrev_conflict("bj", Some(&hot)));
}

#[test]
fn long_key_with_known_word_and_initials() {
    // "zhongguoren" + "mg": the first 11 letters name a hot word.
    let key = "zhongguorenmg";
    let mut lookups: Vec<Option<Vec<String>>> = vec![None; key.len()];
    lookups[11] = Some(strings(&["中国人"]));
    assert!(long_mixed_composition_intent(key, Some(&lookups)));
    let mut single: Vec<Option<Vec<String>>> = vec![None; key.len()];
    single[11] = Some(strings(&["中"]));
    assert!(!long_mixed_composition_intent(key, Some(&single)));
    assert!(!long_mixed_composition_intent(key, None));
    assert!(!long_mixed_composition_intent("zhongguo", Some(&lookups)));
}
