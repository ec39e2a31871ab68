use pinyin_ime::cache::{
    is_final_lookup_cacheable, is_short_lookup_cacheable, lookup_stability_state_from_candidates,
    parse_engine_tuning_ini, repeated_mark, CancellationState, CorrectionWorkBudget, EngineTuning,
    LookupSoftBudget, MixedExpansionLruCache,
};
use pinyin_ime::engine::PinyinEngine;
use pinyin_ime::intent::{
    choose_short_phrase_intent, classify_input_intent, infer_short_abbrev_phrase_intent,
    is_common_command_name, is_high_confidence_mixed_key, is_mixed_prefix_input_intent,
    is_plain_ascii_word_input, looks_like_camel_or_code_case, should_preserve_ascii_input, InputIntent,
    MixedPinyinKeyExpansion,
};

#[test]
fn ascii_input_that_is_kept_verbatim() {
    for kept in ["https://example.com", "git status", "fooBar", "a_b", "x==y", "中文abc", "C:\\tmp", "-v", "www.site", "a.b", "f(x)"] {
        assert!(should_preserve_ascii_input(kept), "{kept}");
    }
    for converted in ["", "   ", "nihao", "hello", "中文", "Beijing", "git", "ls"] {
        assert!(!should_preserve_ascii_input(converted), "{converted}");
    }
    assert!(is_common_command_name("Git"));
    assert!(!is_common_command_name("gitx"));
    let long = "a".repeat(600) + "()";
    assert!(!should_preserve_ascii_input(&long));
}

#[test]
fn intent_precedence() {
    assert_eq!(classify_input_intent("nihao", "nihao", true, true, true, true, Some(2), true), InputIntent::Direct);
    assert_eq!(classify_input_intent("hello", "hello", false, true, false, false, None, false), InputIntent::English);
    assert_eq!(classify_input_intent("hello", "hello", false, false, false, false, None, false), InputIntent::Unknown);
    assert_eq!(classify_input_intent("ni", "ni", false, true, true, false, None, false), InputIntent::SingleSyllable);
    assert_eq!(classify_input_intent("nihao", "nihao", false, false, false, true, None, false), InputIntent::FullPinyin);
    assert_eq!(classify_input_intent("nih", "nih", false, false, false, false, Some(2), true), InputIntent::MixedPrefix);
    assert_eq!(classify_input_intent("bj", "bj", false, false, false, false, Some(2), false), InputIntent::ShortAbbrev);
    assert!(is_plain_ascii_word_input(" hello ", "hello"));
    assert!(!is_plain_ascii_word_input("hel lo", "hello"));
}

#[test]
fn short_phrase_intent_prefers_confidence_then_length() {
    let sources = vec![(Some(2), 5u8), (Some(3), 5), (Some(5), 9), (None, 9), (Some(4), 1)];
    assert_eq!(choose_short_phrase_intent(&sources), Some(3));
    assert_eq!(choose_short_phrase_intent(&vec![(Some(1), 9), (None, 1)]), None);
    let phrases = vec!["北京".to_string(), "北京市".to_string()];
    assert_eq!(infer_short_abbrev_phrase_intent("bjs", "bjs", &phrases), Some(3));
    assert_eq!(infer_short_abbrev_phrase_intent("bjsz", "bjsz", &phrases), None);
    assert_eq!(infer_short_abbrev_phrase_intent("b", "b", &phrases), None);
}

#[test]
fn mixed_key_confidence() {
    let e = MixedPinyinKeyExpansion {
        segment_count: 3,
        full_segments: 1,
        substantive_full_segments: 1,
        prefix_segments: 0,
        initial_segments: 1,
        leading_full: true,
    };
    assert!(is_high_confidence_mixed_key(&e));
    assert!(is_mixed_prefix_input_intent(&e));
    let weak = MixedPinyinKeyExpansion { prefix_segments: 1, initial_segments: 2, substantive_full_segments: 0, leading_full: false, ..e };
    assert!(!is_high_confidence_mixed_key(&weak));
    assert!(!is_mixed_prefix_input_intent(&weak));
    assert!(looks_like_camel_or_code_case("fooBar"));
    assert!(looks_like_camel_or_code_case("ABc"));
    assert!(!looks_like_camel_or_code_case("Abc"));
}

#[test]
fn engine_input_intent_and_leading_syllable() {
    let engine = PinyinEngine::new();
    assert_eq!(engine.input_intent(""), InputIntent::Unknown);
    assert_eq!(engine.input_intent("nihao"), InputIntent::FullPinyin);
    assert_eq!(engine.input_intent("ni"), InputIntent::SingleSyllable);
    assert_eq!(engine.input_intent("bj"), InputIntent::ShortAbbrev);
    assert_eq!(engine.input_intent("https://a.b"), InputIntent::Direct);
    assert_eq!(engine.strip_leading_syllable_from_reading("nihao"), Some("hao".to_string()));
    assert_eq!(engine.strip_leading_syllable_from_reading("ni hao"), Some("hao".to_string()));
    assert_eq!(engine.strip_leading_syllable_from_reading("bj"), Some("j".to_string()));
    assert_eq!(engine.strip_leading_syllable_from_reading("ni"), None);
    assert_eq!(engine.strip_leading_syllable_from_reading("uhao"), None);
}

#[test]
fn engine_tuning_from_settings() {
    let t = parse_engine_tuning_ini(
        "[Engine]\nprefix_cache_capacity = 4 ; small\nlong_lookup_soft_budget_ms=100\nfinal_lookup_cache_capacity=abc\nshort_lookup_cache_capacity=200#x\n[other]\nlong_lookup_min_first_batch_candidates=3\n",
    );
    let d = EngineTuning::default();
    assert_eq!(t.prefix_cache_capacity, 8);
    assert_eq!(t.long_lookup_soft_budget_ms, 50);
    assert_eq!(t.final_lookup_cache_capacity, d.final_lookup_cache_capacity);
    assert_eq!(t.short_lookup_cache_capacity, 200);
    assert_eq!(t.long_lookup_min_first_batch_candidates, d.long_lookup_min_first_batch_candidates);
}

#[test]
fn cacheability() {
    assert!(is_short_lookup_cacheable("nihao", "nihao", false));
    assert!(!is_short_lookup_cacheable("ni hao", "nihao", false));
    assert!(!is_short_lookup_cacheable("nihaoshij", "nihaoshij", false));
    assert!(!is_short_lookup_cacheable("nihao", "nihao", true));
    assert!(is_final_lookup_cacheable("ni'hao 2", false));
    assert!(!is_final_lookup_cacheable("vvx", false));
    assert!(!is_final_lookup_cacheable("a-b", false));
    assert!(!is_final_lookup_cacheable("", false));
    let phrases: Vec<String> = ["a", "b", "c", "d"].iter().map(|s| s.to_string()).collect();
    let st = lookup_stability_state_from_candidates("abc", &phrases).expect("state");
    assert_eq!(st.key, "abc");
    assert_eq!(st.top_phrases, vec!["a", "b", "c"]);
    assert!(lookup_stability_state_from_candidates("abc", &vec![]).is_none());
    let marks: Vec<String> = ["decode", "parse", "decode"].iter().map(|s| s.to_string()).collect();
    assert!(repeated_mark(&marks, "decode"));
    assert!(!repeated_mark(&marks, "parse"));
}

#[test]
fn cancellation_generations() {
    let mut c = CancellationState::new();
    assert_eq!(c.next_generation(), 1);
    c.publish(5);
    assert!(c.is_superseded(3));
    assert!(!c.is_superseded(5));
    assert!(!c.is_superseded(0));
    c.publish(2);
    assert_eq!(c.latest, 5);
    c.latest = u64::MAX;
    assert_eq!(c.next_generation(), 1);
    assert_eq!(c.latest, 0);
}

#[test]
fn work_budgets() {
    let mut b = CorrectionWorkBudget::new(8);
    assert_eq!(b.limit_ms, 4);
    assert!(!b.should_stop(3, true, 100));
    assert!(b.should_stop(8, true, 0));
    assert!(b.cancelled);
    let mut b = CorrectionWorkBudget::new(2);
    assert!(b.should_stop(0, false, 10));
    assert!(!b.should_stop(16, false, 9));
    let t = EngineTuning::default();
    let mut s = LookupSoftBudget::new(7, false, 1, &t);
    assert!(s.enabled);
    assert!(!s.should_yield(false, 0, 100));
    assert!(s.should_yield(false, t.long_lookup_soft_budget_ms, t.long_lookup_min_first_batch_candidates));
    assert_eq!(s.limited_stage, Some("candidate_budget"));
    assert!(s.was_limited() && !s.was_cancelled());
    let mut off = LookupSoftBudget::new(3, false, 1, &t);
    assert!(!off.enabled);
    assert!(!off.should_stop_expensive_work("mixed", false, 1000));
    assert!(off.should_defer_first_batch_stage("x", true, 0, 0));
    assert_eq!(off.limited_stage, Some("superseded"));
}

#[test]
fn expansion_cache_keeps_the_most_recent_keys() {
    let e = |n: usize| MixedPinyinKeyExpansion {
        segment_count: n,
        full_segments: 0,
        substantive_full_segments: 0,
        prefix_segments: 0,
        initial_segments: n,
        leading_full: false,
    };
    let mut cache = MixedExpansionLruCache::new(2);
    cache.put("a".to_string(), vec![e(1)]);
    cache.put("b".to_string(), vec![e(2)]);
    assert_eq!(cache.get("a").map(|v| v[0].segment_count), Some(1));
    cache.put("c".to_string(), vec![e(3)]);
    assert!(cache.get("b").is_none());
    assert_eq!(cache.get("a").map(|v| v[0].segment_count), Some(1));
    assert_eq!(cache.get("c").map(|v| v[0].segment_count), Some(3));
    cache.put("a".to_string(), vec![e(4), e(5)]);
    assert_eq!(cache.get("a").map(|v| v.len()), Some(2));
    cache.clear();
    assert!(cache.get("a").is_none());
}
