use pinyin_ime::phrase_head::{
    apply_multi_syllable_phrase_head_then_first_syllable_singles, PhraseHeadLayout, PhraseHeadRow,
};

fn strings(items: &[&str]) -> Vec<String> {
    items.iter().map(|s| s.to_string()).collect()
}

fn row(first_syllable_match: bool, exact_reading: bool, low_frequency: bool, strong_exact: bool) -> PhraseHeadRow {
    PhraseHeadRow { first_syllable_match, exact_reading, low_frequency, score_drop: false, strong_exact }
}

fn layout(syllable_count: usize, has_first_syllable: bool) -> PhraseHeadLayout {
    PhraseHeadLayout { syllable_count, has_first_syllable, long_input: false, composing_phrase: false, page_size: 9 }
}

fn sample() -> (Vec<String>, Vec<PhraseHeadRow>) {
    let phrases = strings(&["时事", "实施", "是", "十", "事实上", "史诗", "诗"]);
    let rows = vec![
        row(false, true, false, true),
        row(false, true, false, false),
        row(true, false, false, false),
        row(false, false, false, false),
        row(false, false, false, false),
        row(false, false, false, false),
        row(true, false, false, false),
    ];
    (phrases, rows)
}

#[test]
fn exact_head_then_prefix_then_singles() {
    let (phrases, rows) = sample();
    let first = strings(&["是", "事"]);
    let pool = strings(&["师"]);
    let prefix = strings(&["实施方案"]);
    let r = apply_multi_syllable_phrase_head_then_first_syllable_singles(
        &phrases,
        &rows,
        &first,
        &pool,
        &prefix,
        layout(2, true),
    );
    // 7, 8: first-syllable singles; 9: pool; 10: prefix phrase. The ranked
    // single "十" does not read as the first syllable and leaves.
    assert_eq!(r, vec![0, 1, 10, 7, 8, 6, 9, 5, 4]);
}

#[test]
fn composed_head_without_exact_phrases() {
    let (phrases, mut rows) = sample();
    rows[0].exact_reading = false;
    rows[1].exact_reading = false;
    let first = strings(&["是", "事"]);
    let pool = strings(&["师"]);
    let prefix = strings(&["实施方案"]);
    let r = apply_multi_syllable_phrase_head_then_first_syllable_singles(
        &phrases,
        &rows,
        &first,
        &pool,
        &prefix,
        layout(2, true),
    );
    assert_eq!(r, vec![0, 1, 5, 7, 8, 6, 9, 4]);
}

#[test]
fn no_first_syllable_gives_empty_list() {
    let (phrases, rows) = sample();
    let r = apply_multi_syllable_phrase_head_then_first_syllable_singles(
        &phrases,
        &rows,
        &Vec::new(),
        &Vec::new(),
        &Vec::new(),
        layout(2, false),
    );
    assert!(r.is_empty());
}

#[test]
fn two_syllable_front_filled_with_strong_exact_tail() {
    let phrases = strings(&["一一", "二二", "三三", "四四", "五五", "六"]);
    let rows = vec![
        row(false, true, false, false),
        row(false, true, false, false),
        row(false, true, false, false),
        row(false, true, true, false),
        row(false, true, false, true),
        row(true, false, false, false),
    ];
    let r = apply_multi_syllable_phrase_head_then_first_syllable_singles(
        &phrases,
        &rows,
        &Vec::new(),
        &Vec::new(),
        &Vec::new(),
        layout(2, true),
    );
    assert_eq!(r, vec![0, 1, 2, 4, 5, 3]);
}

#[test]
fn long_input_takes_one_first_syllable_single_and_no_pool() {
    let (phrases, rows) = sample();
    let first = strings(&["是", "事"]);
    let pool = strings(&["师"]);
    let mut lay = layout(2, true);
    lay.long_input = true;
    let r = apply_multi_syllable_phrase_head_then_first_syllable_singles(
        &phrases,
        &rows,
        &first,
        &pool,
        &Vec::new(),
        lay,
    );
    assert_eq!(r, vec![0, 1, 7, 6, 5, 4]);
}

#[test]
fn singles_take_the_reserved_slot_of_each_page() {
    let phrases = strings(&["甲甲", "乙乙", "丙丙", "丁丁", "戊戊"]);
    let rows = vec![row(false, false, false, false); 5];
    let first = strings(&["甲", "乙", "丙"]);
    let mut lay = layout(2, true);
    lay.page_size = 3;
    let r = apply_multi_syllable_phrase_head_then_first_syllable_singles(
        &phrases,
        &rows,
        &first,
        &Vec::new(),
        &Vec::new(),
        lay,
    );
    // Pages of three: the head and a single, then two phrases and the next
    // single, then the last phrase.
    assert_eq!(r, vec![0, 1, 5, 2, 3, 6, 4]);
}
