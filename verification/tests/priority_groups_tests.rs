use pinyin_ime::priority_groups::{
    promote_candidate_priority_groups, promote_exact_user_hotwords_front, promote_preserved_candidates,
    promote_preserved_exact_short_abbrev_top1, promote_preserved_short_intent_expansions,
    promote_short_intent_abbrev_prefix_expansions,
};

fn strings(items: &[&str]) -> Vec<String> {
    items.iter().map(|s| s.to_string()).collect()
}

#[test]
fn priority_groups_move_preserved_first_in_group_order() {
    let phrases = strings(&["a", "b", "c", "d"]);
    let groups = vec![strings(&["c"]), strings(&["x", "a", "c"])];
    let (added, order) = promote_candidate_priority_groups(&phrases, &groups);
    assert_eq!(added, strings(&["x"]));
    // c, then the added x (position 4), then a, then the rest.
    assert_eq!(order, vec![2, 4, 0, 1, 3]);
}

#[test]
fn priority_groups_keep_list_when_groups_are_empty() {
    let phrases = strings(&["a", "b"]);
    let groups: Vec<Vec<String>> = vec![Vec::new(), Vec::new()];
    let (added, order) = promote_candidate_priority_groups(&phrases, &groups);
    assert!(added.is_empty());
    assert_eq!(order, vec![0, 1]);
}

#[test]
fn priority_groups_bring_every_copy_of_a_phrase() {
    let phrases = strings(&["a", "b", "a"]);
    let (added, order) = promote_preserved_candidates(&phrases, &strings(&["a"]));
    assert!(added.is_empty());
    assert_eq!(order, vec![0, 2, 1]);
}

#[test]
fn short_intent_expansions_promote_longer_phrases() {
    let phrases = strings(&["十分", "时间", "是否", "十分钟"]);
    let preserved = strings(&["十分钟", "时间表", "时间"]);
    let (added, order) = promote_preserved_short_intent_expansions(&phrases, Some(2), &preserved);
    assert_eq!(added, strings(&["时间表"]));
    assert_eq!(order, vec![3, 4, 0, 1, 2]);
}

#[test]
fn short_intent_expansions_need_two_or_three_characters() {
    let phrases = strings(&["甲", "乙"]);
    let preserved = strings(&["甲乙丙丁丁"]);
    let (added, order) = promote_preserved_short_intent_expansions(&phrases, Some(4), &preserved);
    assert!(added.is_empty());
    assert_eq!(order, vec![0, 1]);
    let (added, order) = promote_preserved_short_intent_expansions(&phrases, None, &preserved);
    assert!(added.is_empty());
    assert_eq!(order, vec![0, 1]);
}

#[test]
fn exact_short_abbrev_top1_sorts_by_frequency() {
    let phrases = strings(&["是的", "时代", "事端"]);
    let groups = vec![strings(&["时代", "事端", "时代的"])];
    let table = vec![("时代".to_string(), 10u64), ("事端".to_string(), 50u64)];
    let (added, order) =
        promote_preserved_exact_short_abbrev_top1(&phrases, false, "xd", "xd", &groups, Some(&table));
    assert!(added.is_empty());
    assert_eq!(order, vec![2, 1, 0]);
}

#[test]
fn exact_short_abbrev_top1_puts_preferred_phrase_first() {
    let phrases = strings(&["是的", "时代", "事端"]);
    let groups = vec![strings(&["时代", "事端"])];
    let table = vec![("时代".to_string(), 10u64), ("事端".to_string(), 50u64)];
    let (added, order) =
        promote_preserved_exact_short_abbrev_top1(&phrases, false, "sd", "sd", &groups, Some(&table));
    assert!(added.is_empty());
    assert_eq!(order, vec![0, 2, 1]);
}

#[test]
fn exact_short_abbrev_top1_respects_blocking_first_candidate() {
    let phrases = strings(&["是的", "时代"]);
    let groups = vec![strings(&["时代"])];
    let (added, order) = promote_preserved_exact_short_abbrev_top1(&phrases, true, "sd", "sd", &groups, None);
    assert!(added.is_empty());
    assert_eq!(order, vec![0, 1]);
    let (_, order) = promote_preserved_exact_short_abbrev_top1(&phrases, false, "s d", "sd", &groups, None);
    assert_eq!(order, vec![0, 1]);
}

#[test]
fn user_hotwords_go_after_anchors() {
    let phrases = strings(&["[日期]", "普通", "热词", "其他", "热词"]);
    let user_priority = vec![false, false, true, false, false];
    let anchors = vec![true, false, false, false, false];
    let hotwords = strings(&["热词"]);
    let r = promote_exact_user_hotwords_front(&phrases, &user_priority, &anchors, &hotwords, None, 2);
    assert_eq!(r, vec![0, 2, 4, 1, 3]);
}

#[test]
fn user_hotwords_need_user_priority_and_fitting_length() {
    let phrases = strings(&["普通", "热词", "长长长长长"]);
    let user_priority = vec![false, false, true];
    let anchors = vec![false, false, false];
    let hotwords = strings(&["热词", "长长长长长"]);
    let r = promote_exact_user_hotwords_front(&phrases, &user_priority, &anchors, &hotwords, None, 2);
    assert_eq!(r, vec![0, 1, 2]);
}

#[test]
fn user_hotwords_respect_limit_and_guard() {
    let phrases = strings(&["x", "甲乙", "丙丁戊", "己庚"]);
    let user_priority = vec![false, true, true, true];
    let anchors = vec![false, false, false, false];
    let hotwords = strings(&["己庚", "丙丁戊", "甲乙"]);
    let r = promote_exact_user_hotwords_front(&phrases, &user_priority, &anchors, &hotwords, None, 1);
    assert_eq!(r, vec![3, 0, 1, 2]);
    let r = promote_exact_user_hotwords_front(&phrases, &user_priority, &anchors, &hotwords, Some(3), 3);
    assert_eq!(r, vec![2, 0, 1, 3]);
    let r = promote_exact_user_hotwords_front(&phrases, &user_priority, &anchors, &hotwords, None, 0);
    assert_eq!(r, vec![0, 1, 2, 3]);
}

#[test]
fn abbrev_prefix_expansions_use_longest_prefix() {
    let phrases = strings(&["北京", "背景", "北京市"]);
    // Lookups by prefix length for the key "bjsh": "bjs" lists two
    // three-character phrases and a longer one; "bj" is shorter than the
    // expansion length and is not consulted.
    let lookups: Vec<Option<Vec<String>>> = vec![
        None,
        None,
        Some(strings(&["北京"])),
        Some(strings(&["北京市", "北京人口", "保健室", "边境上"])),
    ];
    let (added, order) =
        promote_short_intent_abbrev_prefix_expansions(&phrases, "bjsh", Some(2), Some(&lookups));
    assert_eq!(added, strings(&["保健室"]));
    assert_eq!(order, vec![2, 3, 0, 1]);
}

#[test]
fn abbrev_prefix_expansions_need_letters_and_lexicon() {
    let phrases = strings(&["北京", "背景"]);
    let lookups: Vec<Option<Vec<String>>> = vec![None, None, None, Some(strings(&["北京市"]))];
    let (added, order) = promote_short_intent_abbrev_prefix_expansions(&phrases, "bj1h", Some(2), Some(&lookups));
    assert!(added.is_empty());
    assert_eq!(order, vec![0, 1]);
    let (added, order) = promote_short_intent_abbrev_prefix_expansions(&phrases, "bjsh", Some(2), None);
    assert!(added.is_empty());
    assert_eq!(order, vec![0, 1]);
    let (added, order) = promote_short_intent_abbrev_prefix_expansions(&phrases, "bj", Some(2), Some(&lookups));
    assert!(added.is_empty());
    assert_eq!(order, vec![0, 1]);
}
