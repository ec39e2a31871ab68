use pinyin_ime::correction_prefs::{CorrectionLevel, CorrectionPrefs};
use pinyin_ime::engine::PinyinEngine;
use pinyin_ime::intent::InputIntent;
use pinyin_ime::three_char::three_char_density_policy;
use pinyin_ime::postprocess::{
    apply_short_intent_final_candidate_density, demote_corrections_after_confident_long_exact,
    demote_corrections_below_priority_hits, ensure_strong_typo_correction_in_top_three,
    ensure_typo_correction_visible_after_priority_hits, limit_typo_corrections_first_page,
    ensure_exact_short_intent_before_expansion, ensure_strong_two_char_correction_before_expansion,
    promote_first_preserved_after_user_priority, single_insert_ascii_variants, high_priority_two_char_abbrev_key,
    promote_preferred_short_abbrev, dedup_preserved_phrase_order, drop_single_char_corrections_for_two_char_intent,
    enforce_short_intent_visible_page, ensure_single_char_visible_on_first_page,
    limit_english_candidates_for_non_english_intent, limit_short_input_first_page_density,
    prioritize_preserved_phrase_length,
};

fn strings(items: &[&str]) -> Vec<String> {
    items.iter().map(|s| s.to_string()).collect()
}

#[test]
fn single_char_moves_onto_first_page() {
    assert_eq!(
        ensure_single_char_visible_on_first_page(&vec![2, 2, 2, 2, 1], 3),
        vec![0, 1, 4, 2, 3]
    );
    // A page size below three counts as three.
    assert_eq!(
        ensure_single_char_visible_on_first_page(&vec![2, 2, 2, 2, 1], 1),
        vec![0, 1, 4, 2, 3]
    );
    assert_eq!(ensure_single_char_visible_on_first_page(&vec![2, 1, 2], 3), vec![0, 1, 2]);
    assert_eq!(ensure_single_char_visible_on_first_page(&vec![2, 2], 3), vec![0, 1]);
    assert_eq!(ensure_single_char_visible_on_first_page(&vec![2, 2, 2, 1], 9), vec![0, 1, 2, 3]);
    assert_eq!(ensure_single_char_visible_on_first_page(&vec![], 9), Vec::<usize>::new());
}

#[test]
fn single_char_corrections_leave_two_char_intent() {
    let lens = vec![2, 1, 1, 2];
    let corrections = vec![false, true, false, true];
    assert_eq!(drop_single_char_corrections_for_two_char_intent(&lens, &corrections, Some(2)), vec![0, 2, 3]);
    assert_eq!(drop_single_char_corrections_for_two_char_intent(&lens, &corrections, Some(3)), vec![0, 1, 2, 3]);
    assert_eq!(drop_single_char_corrections_for_two_char_intent(&lens, &corrections, None), vec![0, 1, 2, 3]);
    // Without a plain two-character candidate nothing leaves.
    let only_corrected_pairs = vec![true, true, false, true];
    assert_eq!(
        drop_single_char_corrections_for_two_char_intent(&lens, &only_corrected_pairs, Some(2)),
        vec![0, 1, 2, 3]
    );
}

#[test]
fn english_words_follow_and_at_most_two_stay() {
    let english = vec![true, false, true, true, false];
    assert_eq!(limit_english_candidates_for_non_english_intent(&english, InputIntent::Unknown), vec![1, 4, 0, 2]);
    assert_eq!(
        limit_english_candidates_for_non_english_intent(&english, InputIntent::English),
        vec![0, 1, 2, 3, 4]
    );
    assert_eq!(limit_english_candidates_for_non_english_intent(&vec![true, true], InputIntent::FullPinyin), vec![0, 1]);
}

#[test]
fn corrections_go_behind_a_confident_long_exact_top() {
    let demote = vec![false, true, false, false];
    assert_eq!(demote_corrections_after_confident_long_exact(&vec![5, 2, 2, 3], true, &demote), vec![0, 2, 3, 1]);
    assert_eq!(demote_corrections_after_confident_long_exact(&vec![4, 2, 2, 3], true, &demote), vec![0, 1, 2, 3]);
    assert_eq!(demote_corrections_after_confident_long_exact(&vec![5, 2, 2, 3], false, &demote), vec![0, 1, 2, 3]);
    // Corrections are placed after the first page of the others.
    let lens = vec![6, 1, 2, 2, 2, 2, 2, 2, 2, 2, 2, 2];
    let mut flags = vec![false; 12];
    flags[1] = true;
    assert_eq!(
        demote_corrections_after_confident_long_exact(&lens, true, &flags),
        vec![0, 2, 3, 4, 5, 6, 7, 8, 9, 1, 10, 11]
    );
}

#[test]
fn short_input_first_page_keeps_few_weak_exact_candidates() {
    let lens = vec![3, 2, 2, 1, 2, 4, 2];
    let strong = vec![false, false, false, false, false, false, true];
    assert_eq!(
        limit_short_input_first_page_density(&lens, &strong, Some(2), 5),
        vec![1, 2, 6, 3, 0, 4, 5]
    );
    assert_eq!(
        limit_short_input_first_page_density(&lens, &strong, Some(5), 5),
        vec![0, 1, 2, 3, 4, 5, 6]
    );
    assert_eq!(limit_short_input_first_page_density(&lens, &strong, None, 5), vec![0, 1, 2, 3, 4, 5, 6]);
}

#[test]
fn preferred_length_phrases_come_first() {
    let mut phrases = strings(&["你好", "我", "他们", "好的吗"]);
    prioritize_preserved_phrase_length(&mut phrases, 2);
    assert_eq!(phrases, strings(&["你好", "他们", "我", "好的吗"]));
    let mut spaced = strings(&["a b", "abc", "ab"]);
    prioritize_preserved_phrase_length(&mut spaced, 2);
    assert_eq!(spaced, strings(&["a b", "ab", "abc"]));
}

#[test]
fn short_intent_page_replaces_overlong_candidates() {
    let phrases = strings(&["你好吗呀", "你好", "泥", "拟好"]);
    let pinned = vec![false; 4];
    assert_eq!(enforce_short_intent_visible_page(&phrases, &pinned, false, true, 2, 3), vec![1, 2, 3, 0]);
    // Other intents leave the list alone.
    assert_eq!(enforce_short_intent_visible_page(&phrases, &pinned, false, true, 4, 3), vec![0, 1, 2, 3]);
}

#[test]
fn short_intent_page_allows_one_four_char_prediction() {
    let phrases = strings(&["我们的", "我们的人", "我们是谁啊", "卧"]);
    let pinned = vec![false; 4];
    assert_eq!(enforce_short_intent_visible_page(&phrases, &pinned, false, false, 3, 3), vec![0, 1, 3, 2]);
}

#[test]
fn short_intent_page_drops_overlong_when_short_ones_are_few() {
    let phrases = strings(&["好的", "好的吧呀", "好好学习", "号"]);
    let pinned = vec![false; 4];
    assert_eq!(enforce_short_intent_visible_page(&phrases, &pinned, false, false, 2, 9), vec![0, 3]);
    // A pinned long phrase survives the drop.
    let pinned = vec![false, false, true, false];
    assert_eq!(enforce_short_intent_visible_page(&phrases, &pinned, false, false, 2, 9), vec![0, 2, 3]);
}

#[test]
fn final_short_intent_layout_groups_and_drops_long_candidates() {
    let pol = three_char_density_policy(false, false, 0, 0);
    let lens = vec![3, 2, 2, 1, 2, 4, 2, 3];
    let strong = vec![false, false, false, false, false, false, true, false];
    assert_eq!(
        apply_short_intent_final_candidate_density(&lens, &strong, Some(2), 5, &pol),
        vec![1, 2, 6, 4, 0, 7, 3]
    );
    assert_eq!(
        apply_short_intent_final_candidate_density(&vec![4, 5, 9], &vec![false; 3], Some(4), 9, &pol),
        vec![0]
    );
    assert_eq!(
        apply_short_intent_final_candidate_density(&lens, &strong, None, 5, &pol),
        vec![0, 1, 2, 3, 4, 5, 6, 7]
    );
}

#[test]
fn final_short_intent_layout_pages_three_char_intent() {
    let pol = three_char_density_policy(false, false, 0, 0);
    let lens = vec![3, 3, 2, 1];
    let strong = vec![true; 4];
    assert_eq!(apply_short_intent_final_candidate_density(&lens, &strong, Some(3), 9, &pol), vec![0, 1, 2, 3]);
}

fn prefs(enabled: bool, level: CorrectionLevel) -> CorrectionPrefs {
    CorrectionPrefs { enabled, level }
}

#[test]
fn correction_strength_decides_where_the_best_correction_shows() {
    let corrections = vec![false, true, false, true, false];
    let best = Some(3);
    assert_eq!(
        limit_typo_corrections_first_page(&corrections, best, prefs(false, CorrectionLevel::Strong), false),
        vec![0, 2, 4]
    );
    assert_eq!(
        limit_typo_corrections_first_page(&corrections, best, prefs(true, CorrectionLevel::Strong), true),
        vec![0, 2, 4]
    );
    assert_eq!(
        limit_typo_corrections_first_page(&corrections, best, prefs(true, CorrectionLevel::Light), false),
        vec![0, 2, 4]
    );
    assert_eq!(
        limit_typo_corrections_first_page(&vec![true, true], Some(1), prefs(true, CorrectionLevel::Light), false),
        vec![1]
    );
    assert_eq!(
        limit_typo_corrections_first_page(&corrections, best, prefs(true, CorrectionLevel::Medium), false),
        vec![0, 2, 3, 4]
    );
    assert_eq!(
        limit_typo_corrections_first_page(&vec![false, true], Some(1), prefs(true, CorrectionLevel::Medium), false),
        vec![0, 1]
    );
    assert_eq!(
        limit_typo_corrections_first_page(&corrections, best, prefs(true, CorrectionLevel::Strong), false),
        vec![0, 3, 2, 4]
    );
}

#[test]
fn corrections_go_after_the_last_priority_candidate() {
    let corrections = vec![true, false, false, true, false];
    assert_eq!(
        demote_corrections_below_priority_hits(&corrections, &vec![false, false, true, false, false]),
        vec![1, 2, 0, 3, 4]
    );
    assert_eq!(demote_corrections_below_priority_hits(&corrections, &vec![false; 5]), vec![0, 1, 2, 3, 4]);
    assert_eq!(
        demote_corrections_below_priority_hits(&corrections, &vec![true, false, false, false, false]),
        vec![1, 2, 4, 0, 3]
    );
}

#[test]
fn typo_correction_moves_into_the_top_three() {
    let strong = prefs(true, CorrectionLevel::Strong);
    assert_eq!(ensure_strong_typo_correction_in_top_three(6, Some(4), strong, false), vec![0, 1, 4, 2, 3, 5]);
    assert_eq!(
        ensure_strong_typo_correction_in_top_three(6, Some(4), prefs(true, CorrectionLevel::Light), false),
        vec![0, 1, 2, 3, 4, 5]
    );
    assert_eq!(ensure_strong_typo_correction_in_top_three(6, Some(1), strong, false), vec![0, 1, 2, 3, 4, 5]);
    assert_eq!(ensure_strong_typo_correction_in_top_three(3, Some(2), strong, false), vec![0, 1, 2]);
}

#[test]
fn typo_correction_stays_visible_after_priority_candidates() {
    let strong = prefs(true, CorrectionLevel::Strong);
    let corrections = vec![false, false, false, false, true, false];
    let mut blocks = vec![false; 6];
    blocks[0] = true;
    assert_eq!(
        ensure_typo_correction_visible_after_priority_hits(&corrections, &blocks, Some(4), strong, false),
        vec![0, 1, 4, 2, 3, 5]
    );
    let mut third = vec![false; 6];
    third[2] = true;
    assert_eq!(
        ensure_typo_correction_visible_after_priority_hits(&corrections, &third, Some(4), strong, false),
        vec![0, 1, 2, 3, 4, 5]
    );
    assert_eq!(
        ensure_typo_correction_visible_after_priority_hits(&corrections, &blocks, Some(4), strong, true),
        vec![0, 1, 2, 3, 4, 5]
    );
}

#[test]
fn exact_short_candidate_goes_before_a_longer_top() {
    assert_eq!(
        ensure_exact_short_intent_before_expansion(&vec![4, 2, 2], &vec![false, true, false], Some(2)),
        vec![2, 0, 1]
    );
    assert_eq!(ensure_exact_short_intent_before_expansion(&vec![2, 3], &vec![false, false], Some(2)), vec![0, 1]);
    assert_eq!(ensure_exact_short_intent_before_expansion(&vec![4, 2], &vec![false, false], None), vec![0, 1]);
    assert_eq!(ensure_exact_short_intent_before_expansion(&vec![6, 5], &vec![false, false], Some(5)), vec![0, 1]);
}

#[test]
fn preserved_phrase_follows_user_priority_candidates() {
    let phrases = strings(&["a", "b", "c", "d"]);
    let user = vec![false, true, false, true];
    assert_eq!(promote_first_preserved_after_user_priority(&phrases, &user, &strings(&["c", "a"])), vec![1, 3, 2, 0]);
    assert_eq!(promote_first_preserved_after_user_priority(&phrases, &user, &strings(&["z"])), vec![0, 1, 2, 3]);
    assert_eq!(promote_first_preserved_after_user_priority(&phrases, &user, &Vec::new()), vec![0, 1, 2, 3]);
}

#[test]
fn strong_two_char_correction_goes_before_a_longer_top() {
    let strong = prefs(true, CorrectionLevel::Strong);
    let lens = vec![3, 2, 2, 1];
    let typos = vec![false, false, true, false];
    let at_least_top = vec![true, true, true, false];
    assert_eq!(
        ensure_strong_two_char_correction_before_expansion(&lens, &typos, &at_least_top, strong, false),
        vec![2, 0, 1, 3]
    );
    assert_eq!(
        ensure_strong_two_char_correction_before_expansion(
            &lens,
            &typos,
            &at_least_top,
            prefs(true, CorrectionLevel::Medium),
            false
        ),
        vec![0, 1, 2, 3]
    );
    assert_eq!(
        ensure_strong_two_char_correction_before_expansion(&vec![2, 2, 2, 1], &typos, &at_least_top, strong, false),
        vec![0, 1, 2, 3]
    );
}

#[test]
fn one_letter_insertions_are_listed_once() {
    let none = single_insert_ascii_variants("");
    assert_eq!(none.len(), 26);
    assert_eq!(none[0], "a");
    assert_eq!(none[25], "v");
    let one = single_insert_ascii_variants("b");
    assert_eq!(one.len(), 51);
    assert_eq!(one[0], "ab");
    assert_eq!(one[26], "ba");
    assert_eq!(one.iter().filter(|k| k.as_str() == "bb").count(), 1);
}

#[test]
fn short_keys_map_to_two_letter_abbreviations() {
    let engine = PinyinEngine::new();
    let syllables = engine.syllable_set();
    assert_eq!(high_priority_two_char_abbrev_key("ni", "ni", syllables), Some("ni".to_string()));
    assert_eq!(high_priority_two_char_abbrev_key("nih", "nih", syllables), Some("nh".to_string()));
    assert_eq!(high_priority_two_char_abbrev_key("bhao", "bhao", syllables), Some("bh".to_string()));
    assert_eq!(high_priority_two_char_abbrev_key("xyz", "xyz", syllables), None);
    assert_eq!(high_priority_two_char_abbrev_key("n'i", "ni", syllables), None);
    assert_eq!(high_priority_two_char_abbrev_key("", "", syllables), None);
}

#[test]
fn preferred_abbreviation_phrases_lead() {
    let mut phrases = strings(&["手机", "时间", "世界", "睡觉", "数据"]);
    promote_preferred_short_abbrev("sj", &mut phrases);
    assert_eq!(phrases, strings(&["世界", "手机", "睡觉", "时间", "数据"]));
    let mut absent = strings(&["北方"]);
    promote_preferred_short_abbrev("bj", &mut absent);
    assert_eq!(absent, strings(&["北京", "北方"]));
    let mut other = strings(&["你好", "拟好"]);
    promote_preferred_short_abbrev("nh", &mut other);
    assert_eq!(other, strings(&["你好", "拟好"]));
}

#[test]
fn duplicate_phrases_keep_their_first_place() {
    let mut phrases = strings(&["a", "b", "a", "c", "b"]);
    dedup_preserved_phrase_order(&mut phrases);
    assert_eq!(phrases, strings(&["a", "b", "c"]));
}
