use pinyin_ime::common_singles::promote_common_single_chars_after_user_priority;

fn strings(items: &[&str]) -> Vec<String> {
    items.iter().map(|s| s.to_string()).collect()
}

#[test]
fn common_chars_follow_user_candidates() {
    let phrases = strings(&["是的", "时", "是", "事", "十"]);
    let user = vec![true, false, false, false, false];
    let common = vec!['是', '十', '师'];
    let (added, order) = promote_common_single_chars_after_user_priority(&phrases, &user, &common);
    assert_eq!(added, strings(&["师"]));
    // user 是的; then 是, 十, the added 师 (position 5); then 时 and 事.
    assert_eq!(order, vec![0, 2, 4, 5, 1, 3]);
}

#[test]
fn user_held_common_chars_are_skipped() {
    let phrases = strings(&["是", "时"]);
    let user = vec![true, false];
    let common = vec!['是', '时'];
    let (added, order) = promote_common_single_chars_after_user_priority(&phrases, &user, &common);
    assert!(added.is_empty());
    assert_eq!(order, vec![0, 1]);
}

#[test]
fn duplicate_ordinary_phrases_keep_one_place() {
    let phrases = strings(&["时", "诗", "时"]);
    let user = vec![false, false, false];
    let common: Vec<char> = vec!['师'];
    let (added, order) = promote_common_single_chars_after_user_priority(&phrases, &user, &common);
    assert_eq!(added, strings(&["师"]));
    // The phrase 时 appears once, at its first place, as its last holder.
    assert_eq!(order, vec![3, 2, 1]);
}

#[test]
fn no_common_list_keeps_order() {
    let phrases = strings(&["时", "时"]);
    let user = vec![false, false];
    let (added, order) = promote_common_single_chars_after_user_priority(&phrases, &user, &Vec::new());
    assert!(added.is_empty());
    assert_eq!(order, vec![0, 1]);
}

#[test]
fn repeated_listed_char_is_added_again() {
    let phrases = strings(&["时"]);
    let user = vec![false];
    let common = vec!['时', '时'];
    let (added, order) = promote_common_single_chars_after_user_priority(&phrases, &user, &common);
    assert_eq!(added, strings(&["时"]));
    assert_eq!(order, vec![0, 1]);
}
