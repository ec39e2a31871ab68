use pinyin_ime::partial_page::shape_partial_first_page;
use pinyin_ime::three_char::ThreeCharDensityPolicy;

fn strings(items: &[&str]) -> Vec<String> {
    items.iter().map(|s| s.to_string()).collect()
}

fn policy() -> ThreeCharDensityPolicy {
    ThreeCharDensityPolicy { first_exact_cap: 4, later_exact_cap: 3, first_two_char_quota: 2, later_two_char_quota: 2 }
}

#[test]
fn supporting_singles_follow_once_each() {
    let phrases = strings(&["你好", "拟好"]);
    let support = strings(&["你", "呢", "你", "你好"]);
    let r = shape_partial_first_page(
        &phrases,
        &vec![false, false],
        &vec![false, false],
        &support,
        None,
        &Vec::new(),
        9,
        &policy(),
    );
    assert_eq!(r, strings(&["你好", "拟好", "你", "呢"]));
}

#[test]
fn supports_are_cut_to_a_page() {
    let phrases = strings(&["甲乙"]);
    let support = strings(&["甲", "丙", "戊", "庚"]);
    let r = shape_partial_first_page(&phrases, &vec![false], &vec![false], &support, None, &Vec::new(), 3, &policy());
    assert_eq!(r, strings(&["甲乙", "甲", "丙", "戊"]));
}

#[test]
fn preserved_phrase_follows_user_priority() {
    let phrases = strings(&["甲乙", "丙丁", "戊己"]);
    let support = strings(&["甲"]);
    let r = shape_partial_first_page(
        &phrases,
        &vec![true, false, false],
        &vec![false, false, false],
        &support,
        None,
        &strings(&["戊己"]),
        9,
        &policy(),
    );
    assert_eq!(r, strings(&["甲乙", "戊己", "丙丁", "甲"]));
}

#[test]
fn a_single_is_brought_onto_the_first_page() {
    let phrases = strings(&["一二", "三四", "五六", "七八"]);
    let support = strings(&["一"]);
    let r = shape_partial_first_page(
        &phrases,
        &vec![false; 4],
        &vec![false; 4],
        &support,
        None,
        &Vec::new(),
        3,
        &policy(),
    );
    assert_eq!(r.len(), 5);
    assert!(r[..3].iter().any(|p| p == "一"), "{r:?}");
}
