use pinyin_ime::candidate_meta::{
    phrase_set, candidate_blocks_correction_front, candidate_has_user_priority, is_core_long_mixed_prefix_candidate,
    is_user_hotword_front_anchor, merged_meta_priority, top1_confidence_priority, CandidateMatchKind, CandidateMeta,
    CandidateSource, LexiconLayer,
};
use pinyin_ime::frequency_order::{exact_full_pinyin_phrases, full_pinyin_exact_guard_limit};
use pinyin_ime::intent::InputIntent;

fn meta(match_kind: CandidateMatchKind, source: CandidateSource, source_layer: LexiconLayer) -> CandidateMeta {
    CandidateMeta { pinned: false, match_kind, source, source_layer, user_mark: false, has_display_text: false }
}

fn strings(items: &[&str]) -> Vec<String> {
    items.iter().map(|s| s.to_string()).collect()
}

#[test]
fn merged_priority_by_match_kind() {
    let m = meta(CandidateMatchKind::User, CandidateSource::User, LexiconLayer::Unknown);
    assert_eq!(merged_meta_priority(&m), 8);
    let m = meta(CandidateMatchKind::Shortcut, CandidateSource::Shortcut, LexiconLayer::Unknown);
    assert_eq!(merged_meta_priority(&m), 7);
    let m = meta(CandidateMatchKind::ShortAbbrev, CandidateSource::Abbrev, LexiconLayer::Core);
    assert_eq!(merged_meta_priority(&m), 6);
    let m = meta(CandidateMatchKind::Correction, CandidateSource::Correction, LexiconLayer::Core);
    assert_eq!(merged_meta_priority(&m), 5);
    let m = meta(CandidateMatchKind::SingleSyllable, CandidateSource::Pinyin, LexiconLayer::Core);
    assert_eq!(merged_meta_priority(&m), 3);
    let mut m = meta(CandidateMatchKind::Unknown, CandidateSource::System, LexiconLayer::Unknown);
    assert_eq!(merged_meta_priority(&m), 0);
    m.has_display_text = true;
    assert_eq!(merged_meta_priority(&m), 2);
}

#[test]
fn user_priority_and_front_anchor() {
    let mut m = meta(CandidateMatchKind::FullPinyin, CandidateSource::Pinyin, LexiconLayer::Core);
    assert!(!candidate_has_user_priority(&m));
    assert!(!is_user_hotword_front_anchor(&m));
    m.user_mark = true;
    assert!(candidate_has_user_priority(&m));
    let d = meta(CandidateMatchKind::DateTime, CandidateSource::DateTime, LexiconLayer::Unknown);
    assert!(is_user_hotword_front_anchor(&d));
    let u = meta(CandidateMatchKind::Unknown, CandidateSource::UMode, LexiconLayer::Unknown);
    assert!(is_user_hotword_front_anchor(&u));
}

#[test]
fn exact_full_pinyin_blocks_correction_front() {
    let exact = phrase_set(&strings(&["时事"]));
    let m = meta(CandidateMatchKind::FullPinyin, CandidateSource::Pinyin, LexiconLayer::Core);
    assert!(candidate_blocks_correction_front(&m, "时事", &exact, Some(2)));
    assert!(!candidate_blocks_correction_front(&m, "时事", &exact, Some(3)));
    assert!(!candidate_blocks_correction_front(&m, "实施", &exact, Some(2)));
    let ext = meta(CandidateMatchKind::FullPinyin, CandidateSource::Pinyin, LexiconLayer::Ext);
    assert!(!candidate_blocks_correction_front(&ext, "时事", &exact, Some(2)));
    let abbrev = meta(CandidateMatchKind::ShortAbbrev, CandidateSource::Abbrev, LexiconLayer::Core);
    assert!(!candidate_blocks_correction_front(&abbrev, "时事", &exact, Some(2)));
    let mut pinned = abbrev;
    pinned.pinned = true;
    assert!(candidate_blocks_correction_front(&pinned, "x", &exact, None));
}

#[test]
fn core_long_mixed_prefix() {
    let m = meta(CandidateMatchKind::MixedPrefix, CandidateSource::Mixed, LexiconLayer::Base);
    assert!(is_core_long_mixed_prefix_candidate(&m, "中华人民", None));
    assert!(!is_core_long_mixed_prefix_candidate(&m, "中华人民", Some(3)));
    assert!(!is_core_long_mixed_prefix_candidate(&m, "中华", None));
    let core_abbrev = meta(CandidateMatchKind::ShortAbbrev, CandidateSource::Abbrev, LexiconLayer::Core);
    assert!(is_core_long_mixed_prefix_candidate(&core_abbrev, "中华", Some(2)));
    assert!(!is_core_long_mixed_prefix_candidate(&core_abbrev, "中华", Some(3)));
}

#[test]
fn top1_priorities() {
    let exact = phrase_set(&strings(&["时事"]));
    let mut m = meta(CandidateMatchKind::FullPinyin, CandidateSource::Pinyin, LexiconLayer::Core);
    assert_eq!(top1_confidence_priority(&m, "时事", &exact, Some(2), InputIntent::FullPinyin), 32);
    assert_eq!(top1_confidence_priority(&m, "实施", &exact, Some(2), InputIntent::FullPinyin), 24);
    m.pinned = true;
    assert_eq!(top1_confidence_priority(&m, "实施", &exact, Some(2), InputIntent::FullPinyin), 50);
    let e = meta(CandidateMatchKind::English, CandidateSource::English, LexiconLayer::En);
    assert_eq!(top1_confidence_priority(&e, "hello", &exact, None, InputIntent::English), 45);
    assert_eq!(top1_confidence_priority(&e, "hello", &exact, None, InputIntent::FullPinyin), 4);
    let x = meta(CandidateMatchKind::ShortAbbrev, CandidateSource::Abbrev, LexiconLayer::Ext);
    assert_eq!(top1_confidence_priority(&x, "中华", &exact, None, InputIntent::ShortAbbrev), 6);
    let y = meta(CandidateMatchKind::ShortAbbrev, CandidateSource::Abbrev, LexiconLayer::Core);
    assert_eq!(top1_confidence_priority(&y, "中华", &exact, None, InputIntent::ShortAbbrev), 12);
    let z = meta(CandidateMatchKind::MixedPrefix, CandidateSource::Mixed, LexiconLayer::Core);
    assert_eq!(top1_confidence_priority(&z, "中华", &exact, None, InputIntent::MixedPrefix), 18);
    let u = meta(CandidateMatchKind::Unknown, CandidateSource::User, LexiconLayer::Unknown);
    assert_eq!(top1_confidence_priority(&u, "中华", &exact, None, InputIntent::MixedPrefix), 40);
}

#[test]
fn exact_full_pinyin_phrases_by_frequency() {
    let entries = vec![
        ("时事".to_string(), 100u64),
        ("实施".to_string(), 300u64),
        ("事实上".to_string(), 900u64),
        ("史诗".to_string(), 200u64),
    ];
    assert_eq!(exact_full_pinyin_phrases(Some(&entries), 2), strings(&["实施", "史诗", "时事"]));
    assert!(exact_full_pinyin_phrases(Some(&entries), 1).is_empty());
    assert!(exact_full_pinyin_phrases(None, 2).is_empty());
    assert_eq!(full_pinyin_exact_guard_limit(2), 6);
    assert_eq!(full_pinyin_exact_guard_limit(5), 3);
    let many: Vec<(String, u64)> = (0..10u64).map(|i| (format!("a{i}"), i)).collect();
    assert_eq!(exact_full_pinyin_phrases(Some(&many), 2).len(), 6);
}
