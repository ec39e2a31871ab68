use pinyin_ime::engine::{
    compact_lookup_key, PinyinEngine, LEARN_FLAG_COMPOSED_PHRASE, LEARN_FLAG_NO_LEARN, LEARN_FLAG_WEAK,
    MODE_JIANPIN, MODE_LEARNING_CONSERVATIVE, MODE_MIXED_PINYIN, MODE_TRADITIONAL_OUTPUT, TSF_PAGE_SIZE,
};
use pinyin_ime::candidate_meta::{CandidateMatchKind, CandidateMeta, CandidateSource, LexiconLayer};
use pinyin_ime::intent::{InputIntent, MixedPinyinKeyExpansion};
use pinyin_ime::phrase_lexicon::{parse_lexicon_mixed_text, parse_lexicon_text};
use pinyin_ime::postprocess::demote_cold_non_full_lexicon_candidates;
use pinyin_ime::single_char_common::SingleCharCommonIndex;

fn composed_phrase_is_recalled() {
    let mut engine = PinyinEngine::with_phrase_dir(None);
    engine.clear_user_lexicon_for_eval();
    engine
        .learn_commit_with_flags("chong", "重", LEARN_FLAG_WEAK)
        .expect("learn first selected character");
    engine
        .learn_commit_with_flags("qing", "庆", 0)
        .expect("learn final selected character");
    engine
        .learn_commit_with_flags("chongqing", "重庆", LEARN_FLAG_COMPOSED_PHRASE)
        .expect("learn composed user phrase");
    let candidates = engine.lookup_tsf_candidates("chongqing");
    assert!(
        candidates.iter().any(|candidate| candidate == "重庆"),
        "composed phrase was not recalled: {candidates:?}"
    );
}

fn heteronym_readings_are_offered() {
    let mut engine = PinyinEngine::with_phrase_dir(None);
    for (input, expected) in [("chong", "重"), ("yue", "乐"), ("hang", "行")] {
        let candidates = engine.lookup_tsf_candidates(input);
        assert!(
            candidates.iter().any(|candidate| candidate == expected),
            "{input} did not return {expected}; candidates={candidates:?}"
        );
    }
}

#[test]
fn lookup_lookup_returns_non_primary_heteronym_readings() {
    heteronym_readings_are_offered();
}

#[test]
fn lookup_tests_lookup_returns_non_primary_heteronym_readings() {
    heteronym_readings_are_offered();
}

#[test]
fn lookup_composed_polyphonic_user_phrase_is_available_on_next_lookup() {
    composed_phrase_is_recalled();
}

#[test]
fn lookup_tests_composed_polyphonic_user_phrase_is_available_on_next_lookup() {
    composed_phrase_is_recalled();
}

#[test]
fn xiong_does_not_offer_neng_but_neng_does() {
    let mut engine = PinyinEngine::with_phrase_dir(None);
    let xiong = engine.lookup_tsf_candidates("xiong");
    assert!(!xiong.iter().any(|c| c == "能"));
    assert!(xiong.iter().any(|c| c == "熊"));
    let neng = engine.lookup_first_page("neng");
    assert!(neng.iter().any(|c| c == "能"));
    assert!(neng.len() <= TSF_PAGE_SIZE);
}

#[test]
fn committed_phrase_comes_first_for_its_reading() {
    let mut engine = PinyinEngine::new();
    engine.learn_commit("bei jing", " 北京 ").expect("learn");
    let candidates = engine.lookup_tsf_candidates("beijing");
    assert_eq!(candidates.first().map(String::as_str), Some("北京"));
    // The initials of a full-pinyin reading are learned too.
    let abbreviated = engine.lookup_tsf_candidates("bj");
    assert!(abbreviated.iter().any(|c| c == "北京"));
    // And so are its mixed full/initial keys.
    let mixed = engine.lookup_tsf_candidates("beij");
    assert!(mixed.iter().any(|c| c == "北京"));
}

#[test]
fn nothing_is_learned_in_traditional_mode_or_when_flagged() {
    let mut engine = PinyinEngine::new();
    engine.set_mode_flags(MODE_TRADITIONAL_OUTPUT);
    engine.learn_commit("beijing", "北京").expect("learn");
    assert!(!engine.lookup_tsf_candidates("beijing").iter().any(|c| c == "北京"));
    engine.set_mode_flags(0);
    engine.learn_commit_with_flags("beijing", "北京", LEARN_FLAG_NO_LEARN).expect("learn");
    assert!(!engine.lookup_tsf_candidates("beijing").iter().any(|c| c == "北京"));
    // Sensitive text is never learned.
    engine.learn_commit("mima", "user@example.com").expect("learn");
    assert!(!engine.lookup_tsf_candidates("mima").iter().any(|c| c == "user@example.com"));
}

#[test]
fn conservative_mode_waits_for_repeated_composed_phrases() {
    let mut engine = PinyinEngine::new();
    engine.set_mode_flags(MODE_LEARNING_CONSERVATIVE);
    engine
        .learn_commit_with_flags("chongqing", "重庆", LEARN_FLAG_COMPOSED_PHRASE)
        .expect("observe");
    assert!(!engine.lookup_tsf_candidates("chongqing").iter().any(|c| c == "重庆"));
    for _ in 0..3 {
        engine
            .learn_commit_with_flags("chongqing", "重庆", LEARN_FLAG_COMPOSED_PHRASE)
            .expect("observe");
    }
    assert!(engine.lookup_tsf_candidates("chongqing").iter().any(|c| c == "重庆"));
}

#[test]
fn removed_and_blocked_phrases_are_not_offered() {
    let mut engine = PinyinEngine::new();
    engine.learn_commit("beijing", "北京").expect("learn");
    assert_eq!(engine.remove_user_phrase("beijing", "北京"), Ok(true));
    assert!(!engine.lookup_tsf_candidates("beijing").iter().any(|c| c == "北京"));
    assert_eq!(engine.remove_user_phrase("beijing", "北京"), Ok(false));

    engine.learn_commit("shanghai", "上海").expect("learn");
    assert_eq!(engine.block_user_phrase("上海"), Ok(true));
    assert_eq!(engine.block_user_phrase("上海"), Ok(false));
    assert!(!engine.lookup_tsf_candidates("shanghai").iter().any(|c| c == "上海"));
    assert_eq!(engine.unblock_user_phrase("上海"), Ok(true));
    assert!(engine.lookup_tsf_candidates("shanghai").iter().any(|c| c == "上海"));
    assert_eq!(engine.unblock_user_phrase("上海"), Ok(false));
}

#[test]
fn pinned_phrase_leads_the_user_phrases() {
    let mut engine = PinyinEngine::new();
    engine.learn_commit("shishi", "事实").expect("learn");
    engine.learn_commit("shishi", "事实").expect("learn");
    engine.learn_commit("shishi", "实时").expect("learn");
    assert_eq!(engine.lookup_tsf_candidates("shishi")[0], "事实");
    engine.set_candidate_pin("shishi", "实时", true).expect("pin");
    assert_eq!(engine.lookup_tsf_candidates("shishi")[0], "实时");
    engine.set_candidate_pin("shishi", "实时", false).expect("unpin");
    assert_eq!(engine.lookup_tsf_candidates("shishi")[0], "事实");
}

#[test]
fn clock_and_mode_flags() {
    let mut engine = PinyinEngine::new();
    let epoch = engine.cache_epoch();
    engine.set_mode_flags(engine.mode_flags());
    assert_eq!(engine.cache_epoch(), epoch);
    engine.set_mode_flags(7);
    assert_eq!(engine.mode_flags(), 7);
    assert_eq!(engine.cache_epoch(), epoch.wrapping_add(1));
    engine.advance_learning_clock_for_eval(5);
    engine.reset_learning_context();
    engine.learn_correction(" teh ", " the ").expect("learn correction");
    assert!(engine.reload_phrase_dir(Some("lexicon")).is_ok());
}

#[test]
fn compact_lookup_key_keeps_lowercase_letters_in_v_spelling() {
    assert_eq!(compact_lookup_key("Bei'Jing 1"), "beijing");
    assert_eq!(compact_lookup_key("lüe"), "le");
    assert_eq!(compact_lookup_key("nue"), "nve");
}

#[test]
fn selection_feedback_is_accepted() {
    let mut engine = PinyinEngine::new();
    engine.learn_commit("qianmian", "前面").expect("learn");
    let skipped = vec!["钱面".to_string(), " 前面 ".to_string(), "潜眠".to_string()];
    assert!(engine.learn_selection_feedback("qianmian", "前面", 1, 0, &skipped).is_ok());
}

const ANIMAL_LEXICON: &str = "# animals\n\
虎皮鹦鹉\thu pi ying wu\t120\n\
胡萍\thu ping\t300\n\
户平\thu ping\t40\n\
not a row\n\
\n";

#[test]
fn cold_extension_words_are_tail_only_for_non_full_input() {
    let abbrev_meta = |source_layer| CandidateMeta {
        pinned: false,
        match_kind: CandidateMatchKind::ShortAbbrev,
        source: CandidateSource::Abbrev,
        source_layer,
        user_mark: false,
        has_display_text: false,
    };
    let phrases = ["冷门词", "高频词"];
    let metas = vec![abbrev_meta(LexiconLayer::Ext), abbrev_meta(LexiconLayer::Base)];
    let abbreviated = demote_cold_non_full_lexicon_candidates(&metas, InputIntent::ShortAbbrev);
    assert_eq!(abbreviated.iter().map(|&i| phrases[i]).collect::<Vec<_>>(), ["高频词", "冷门词"]);
    let full_pinyin = demote_cold_non_full_lexicon_candidates(&metas, InputIntent::FullPinyin);
    assert_eq!(phrases[full_pinyin[0]], "冷门词");

    let mut engine = PinyinEngine::with_phrase_dir(None);
    engine.load_phrase_lexicon_text(BASE_LEXICON);
    engine.load_extension_lexicon_text(EXTENSION_LEXICON);
    engine.clear_user_lexicon_for_eval();
    engine.set_mode_flags(MODE_JIANPIN | MODE_MIXED_PINYIN);
    assert_eq!(engine.input_intent("wj"), InputIntent::ShortAbbrev);
    let abbreviated = engine.lookup_tsf_candidates("hpyw");
    let cold_position = abbreviated.iter().position(|phrase| phrase == "虎皮鹦鹉");
    assert!(
        cold_position.is_none_or(|position| position >= TSF_PAGE_SIZE),
        "cold extension phrase entered the short-input page: {abbreviated:?}"
    );
    let full_pinyin = engine.lookup_tsf_candidates("hupiyingwu");
    assert!(
        full_pinyin.iter().any(|phrase| phrase == "虎皮鹦鹉"),
        "full pinyin could not recall the cold extension phrase: {full_pinyin:?}"
    );
}

const BASE_LEXICON: &str = "高频词\tgao pin ci\t9000\n胡萍\thu ping\t300\n";
const EXTENSION_LEXICON: &str = "虎皮鹦鹉\thu pi ying wu\t120\n冷门词\tleng men ci\t3500\n";

#[test]
fn base_phrases_answer_their_abbreviation_only_with_jianpin() {
    let mut engine = PinyinEngine::with_phrase_dir(None);
    engine.load_phrase_lexicon_text(BASE_LEXICON);
    engine.load_extension_lexicon_text(EXTENSION_LEXICON);
    engine.clear_user_lexicon_for_eval();
    engine.set_mode_flags(MODE_MIXED_PINYIN);
    let plain = engine.lookup_tsf_candidates("gpc");
    assert!(!plain.iter().any(|p| p == "高频词"), "{plain:?}");
    engine.set_mode_flags(MODE_JIANPIN);
    let abbreviated = engine.lookup_tsf_candidates("gpc");
    assert_eq!(abbreviated.first().map(String::as_str), Some("高频词"));
    let cold = engine.lookup_tsf_candidates("lmc");
    assert!(!cold.iter().any(|p| p == "冷门词"), "{cold:?}");
    let full = engine.lookup_tsf_candidates("lengmenci");
    assert_eq!(full.first().map(String::as_str), Some("冷门词"));
}

#[test]
fn lexicon_phrases_follow_user_phrases_heaviest_first() {
    let mut engine = PinyinEngine::with_phrase_dir(None);
    engine.load_phrase_lexicon_text(ANIMAL_LEXICON);
    let before = engine.lookup_tsf_candidates("huping");
    assert_eq!(&before[..2], ["胡萍".to_string(), "户平".to_string()]);
    engine.learn_commit("hu ping", "户平").expect("learn");
    let after = engine.lookup_tsf_candidates("huping");
    assert_eq!(&after[..2], ["户平".to_string(), "胡萍".to_string()]);
    assert_eq!(after.iter().filter(|p| p.as_str() == "户平").count(), 1);
    engine.load_phrase_lexicon_text("");
    let without = engine.lookup_tsf_candidates("huping");
    assert!(!without.iter().any(|p| p == "胡萍"));
}

#[test]
fn lexicon_text_rows_skip_comments_and_malformed_lines() {
    let rows = parse_lexicon_text(ANIMAL_LEXICON);
    let seen: Vec<(&str, &str, u64)> =
        rows.iter().map(|r| (r.phrase.as_str(), r.key.as_str(), r.weight)).collect();
    assert_eq!(
        seen,
        [("虎皮鹦鹉", "hupiyingwu", 120), ("胡萍", "huping", 300), ("户平", "huping", 40)]
    );
    assert!(parse_lexicon_text("词\tci\t-1\n词\t\t5\n\tci\t5\n词\tci\t5\tx\n").is_empty());
}

#[test]
fn first_page_is_the_head_of_the_full_lookup() {
    let mut engine = PinyinEngine::with_phrase_dir(None);
    engine.load_phrase_lexicon_text(ANIMAL_LEXICON);
    for input in ["si", "huping", "hupiyingwu", "zhong"] {
        let full = engine.lookup_tsf_candidates(input);
        let page = engine.lookup_first_page(input);
        let head: Vec<String> = full.into_iter().take(TSF_PAGE_SIZE).collect();
        assert_eq!(page, head, "{input}");
    }
    assert_eq!(engine.lookup_first_page("si").len(), 9);
}

#[test]
fn repeated_unselected_top_two_cool_while_selected_candidate_moves_forward() {
    let mut engine = PinyinEngine::with_phrase_dir(None);
    engine.load_phrase_lexicon_text("防止\tfang zhi\t900\n方志\tfang zhi\t500\n放置\tfang zhi\t400\n");
    engine.clear_user_lexicon_for_eval();
    engine.set_mode_flags(MODE_JIANPIN | MODE_MIXED_PINYIN);
    let before = engine.lookup_tsf_candidates("fangzhi");
    assert!(before.len() >= 3, "not enough candidates: {before:?}");
    let first = before[0].clone();
    let second = before[1].clone();
    let selected = before[2].clone();
    let skipped = vec![first.clone(), second.clone()];
    for _ in 0..3 {
        engine
            .learn_selection_feedback("fangzhi", &selected, 2, 0, &skipped)
            .expect("record candidate feedback");
    }
    let lexicon = engine.user_lexicon();
    for phrase in [&first, &second] {
        let score = lexicon
            .weak_unselected
            .iter()
            .find(|entry| entry.key == "fangzhi" && &entry.phrase == phrase)
            .map(|entry| entry.score);
        assert_eq!(score, Some(-3), "top-two candidate did not accumulate three weak misses");
    }
    assert!(lexicon
        .selection
        .iter()
        .filter(|entry| entry.key == "fangzhi")
        .all(|entry| entry.phrase != first && entry.phrase != second));
}

#[test]
fn exact_full_pinyin_single_syllable_keeps_cold_chars_reachable() {
    let mut engine = PinyinEngine::with_phrase_dir(None);
    engine.clear_user_lexicon_for_eval();
    engine.set_mode_flags(MODE_JIANPIN | MODE_MIXED_PINYIN);
    for (input, cold_chars) in [
        ("chang", &["昶", "氅", "鲳"][..]),
        ("da", &["龘", "妲"][..]),
        ("shang", &["熵", "殇"][..]),
        ("wang", &["罔", "辋"][..]),
        ("si", &["兕", "巳"][..]),
    ] {
        let phrases = engine.lookup_tsf_candidates(input);
        for cold in cold_chars {
            assert!(
                phrases.iter().any(|phrase| phrase == cold),
                "{input} did not list cold single char {cold}; candidates={phrases:?}"
            );
        }
    }
    for input in ["chang", "da", "shang", "wang", "si", "mo"] {
        let phrases = engine.lookup_tsf_candidates(input);
        let missing: Vec<String> = engine
            .chars_under(input)
            .iter()
            .map(|ch| ch.to_string())
            .filter(|ch| !phrases.contains(ch))
            .collect();
        assert!(missing.is_empty(), "{input} full-pinyin candidate list dropped dict chars: missing={missing:?}");
    }
    assert_eq!(engine.lookup_first_page("si").len(), 9);
}

#[test]
fn common_characters_lead_the_singles_by_frequency() {
    let mut engine = PinyinEngine::with_phrase_dir(None);
    let plain = engine.lookup_tsf_candidates("xiong");
    assert_ne!(plain.first().map(String::as_str), Some("熊"));
    let index = SingleCharCommonIndex::from_text("熊\t900\n兄\t800\n胸\t700\n").ok();
    assert!(index.is_some());
    engine.set_single_char_common_index(index);
    let ranked = engine.lookup_tsf_candidates("xiong");
    assert_eq!(&ranked[..3], ["熊".to_string(), "兄".to_string(), "胸".to_string()]);
    assert_eq!(ranked.len(), plain.len());
    assert!(!ranked.iter().any(|p| p == "能"));
    assert!(engine.lookup_first_page("neng").iter().any(|p| p == "能"));
}

#[test]
fn mixed_pinyin_index_answers_decide_the_mixed_prefix_intent() {
    let mut engine = PinyinEngine::with_phrase_dir(None);
    let none: Vec<MixedPinyinKeyExpansion> = Vec::new();
    assert_eq!(engine.input_intent("zhongg"), InputIntent::Unknown);
    assert_eq!(engine.input_intent_with_mixed_keys("zhongg", false, &none), InputIntent::Unknown);
    let led_by_full = MixedPinyinKeyExpansion {
        segment_count: 2,
        full_segments: 1,
        substantive_full_segments: 1,
        prefix_segments: 0,
        initial_segments: 1,
        leading_full: true,
    };
    assert_eq!(
        engine.input_intent_with_mixed_keys("zhongg", false, &vec![led_by_full]),
        InputIntent::MixedPrefix
    );
    let led_by_initial = MixedPinyinKeyExpansion { leading_full: false, ..led_by_full };
    assert_eq!(
        engine.input_intent_with_mixed_keys("zhongg", false, &vec![led_by_initial]),
        InputIntent::Unknown
    );
    engine.set_mode_flags(MODE_MIXED_PINYIN);
    assert_eq!(engine.input_intent_with_mixed_keys("zhongg", true, &none), InputIntent::MixedPrefix);
    assert_eq!(engine.input_intent_with_mixed_keys("zhg", true, &none), InputIntent::ShortAbbrev);
    engine.set_mode_flags(0);
    assert_eq!(engine.input_intent_with_mixed_keys("zhongg", true, &none), InputIntent::Unknown);
}

#[test]
fn mixed_keys_type_some_syllables_in_full_and_others_by_initial() {
    let rows = parse_lexicon_mixed_text("中国\tzhong guo\t900\n一\tyi\t5\n中华人民共和国\tzhong hua ren min gong he guo\t7\n");
    let seen: Vec<(&str, &str, u64)> =
        rows.iter().map(|r| (r.phrase.as_str(), r.key.as_str(), r.weight)).collect();
    assert_eq!(seen, [("中国", "zguo", 900), ("中国", "zhongg", 900)]);
}

#[test]
fn mixed_pinyin_lookup_finds_base_phrases_only_when_on() {
    let mut engine = PinyinEngine::with_phrase_dir(None);
    engine.load_phrase_lexicon_text("中国\tzhong guo\t900\n");
    engine.load_extension_lexicon_text("钟鼓\tzhong gu\t10\n");
    engine.clear_user_lexicon_for_eval();
    engine.set_mode_flags(0);
    assert!(!engine.lookup_tsf_candidates("zhongg").iter().any(|p| p == "中国"));
    engine.set_mode_flags(MODE_MIXED_PINYIN);
    assert_eq!(engine.lookup_tsf_candidates("zhongg").first().map(String::as_str), Some("中国"));
    assert_eq!(engine.lookup_tsf_candidates("zguo").first().map(String::as_str), Some("中国"));
    assert!(!engine.lookup_tsf_candidates("zgu").iter().any(|p| p == "钟鼓"));
}
