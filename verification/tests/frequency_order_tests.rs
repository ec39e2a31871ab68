use pinyin_ime::frequency_order::{
    enforce_strict_system_lexicon_frequency_order, frequency_order, sort_preserved_phrases_by_lexicon_frequency,
    sort_short_abbrev_top1_phrases,
};

fn strings(items: &[&str]) -> Vec<String> {
    items.iter().map(|s| s.to_string()).collect()
}

fn entries(items: &[(&str, u64)]) -> Vec<(String, u64)> {
    items.iter().map(|(p, f)| (p.to_string(), *f)).collect()
}

#[test]
fn frequency_order_puts_frequent_first_and_ties_in_code_point_order() {
    let phrases = strings(&["b", "a", "c", "a"]);
    let freqs = vec![5, 5, 9, 5];
    let members = vec![true, true, true, true];
    assert_eq!(frequency_order(&phrases, &freqs, &members), vec![2, 1, 3, 0]);
}

#[test]
fn frequency_order_lists_members_only() {
    let phrases = strings(&["x", "y", "z"]);
    let freqs = vec![1, 2, 3];
    assert_eq!(frequency_order(&phrases, &freqs, &vec![true, false, true]), vec![2, 0]);
    assert_eq!(frequency_order(&phrases, &freqs, &vec![false, false, false]), Vec::<usize>::new());
}

#[test]
fn preserved_phrases_sorted_by_frequency_then_text() {
    let mut phrases = strings(&["世界", "时间", "事件", "实践"]);
    let freqs = vec![10, 30, 10, 20];
    sort_preserved_phrases_by_lexicon_frequency(&mut phrases, Some(&freqs));
    let mut tied = strings(&["世界", "事件"]);
    tied.sort();
    let mut expected = strings(&["时间", "实践"]);
    expected.extend(tied);
    assert_eq!(phrases, expected);
}

#[test]
fn preserved_phrases_unchanged_without_lexicon() {
    let mut phrases = strings(&["c", "a", "b"]);
    sort_preserved_phrases_by_lexicon_frequency(&mut phrases, None);
    assert_eq!(phrases, strings(&["c", "a", "b"]));
}

#[test]
fn short_abbrev_top1_sorted_plainly_without_lexicon() {
    let mut phrases = strings(&["c", "a", "b", "ab"]);
    sort_short_abbrev_top1_phrases(&mut phrases, None);
    let mut expected = strings(&["c", "a", "b", "ab"]);
    expected.sort();
    assert_eq!(phrases, expected);
}

#[test]
fn short_abbrev_top1_sorted_by_frequency_with_lexicon() {
    let mut phrases = strings(&["a", "b", "c"]);
    sort_short_abbrev_top1_phrases(&mut phrases, Some(&vec![1, 3, 2]));
    assert_eq!(phrases, strings(&["b", "c", "a"]));
}

#[test]
fn strict_order_reorders_eligible_slots_only() {
    let phrases = strings(&["中国", "用户词", "种过", "重过"]);
    let system_rows = vec![true, false, true, true];
    let es = entries(&[("中国", 100), ("种过", 500), ("重过", 300), ("用户词", 900)]);
    let r = enforce_strict_system_lexicon_frequency_order(&phrases, &system_rows, Some(&es), 2);
    assert_eq!(r, vec![2, 1, 3, 0]);
}

#[test]
fn strict_order_ignores_other_lengths_and_unknown_phrases() {
    let phrases = strings(&["中国人", "中国", "种过", "其他"]);
    let system_rows = vec![true, true, true, true];
    let es = entries(&[("中国人", 900), ("中国", 100), ("种过", 500)]);
    let r = enforce_strict_system_lexicon_frequency_order(&phrases, &system_rows, Some(&es), 2);
    assert_eq!(r, vec![0, 2, 1, 3]);
}

#[test]
fn strict_order_keeps_list_without_entries_or_short_phrase_length() {
    let phrases = strings(&["甲", "乙"]);
    let system_rows = vec![true, true];
    assert_eq!(enforce_strict_system_lexicon_frequency_order(&phrases, &system_rows, None, 2), vec![0, 1]);
    let es = entries(&[("甲", 1), ("乙", 9)]);
    assert_eq!(enforce_strict_system_lexicon_frequency_order(&phrases, &system_rows, Some(&es), 1), vec![0, 1]);
}

#[test]
fn strict_order_needs_two_known_phrases() {
    let phrases = strings(&["中国", "中国"]);
    let system_rows = vec![true, true];
    let es = entries(&[("中国", 100), ("中国", 100)]);
    assert_eq!(enforce_strict_system_lexicon_frequency_order(&phrases, &system_rows, Some(&es), 2), vec![0, 1]);
}

#[test]
fn strict_order_uses_last_entry_frequency() {
    let phrases = strings(&["甲乙", "丙丁"]);
    let system_rows = vec![true, true];
    let es = entries(&[("甲乙", 900), ("丙丁", 500), ("甲乙", 100)]);
    assert_eq!(enforce_strict_system_lexicon_frequency_order(&phrases, &system_rows, Some(&es), 2), vec![1, 0]);
}
