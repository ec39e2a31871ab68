use pinyin_ime::correction_prefs::{CorrectionLevel, CorrectionPrefs};
use pinyin_ime::postprocess_groups::{
    candidate_postprocess_order, candidate_postprocess_priority_groups, final_postprocess_order,
    multi_syllable_layout_postprocess,
    LayoutPostprocessInput, PostprocessGuards, PostprocessLists,
};

fn strings(items: &[&str]) -> Vec<String> {
    items.iter().map(|s| s.to_string()).collect()
}

fn lists() -> PostprocessLists {
    PostprocessLists {
        direct: strings(&["2024年"]),
        preferred: Vec::new(),
        exact_user: strings(&["时间", "时间表"]),
        pinned_user: strings(&["是", "实践"]),
        separator: Vec::new(),
        exact_full_pinyin: strings(&["时间", "实践"]),
        exact_lexicon: strings(&["视角"]),
        mixed_user: Vec::new(),
        high_priority_two_char: Vec::new(),
        chat_priority_two_char: Vec::new(),
        daily_short_two_char: Vec::new(),
        daily_short_three_char: Vec::new(),
    }
}

fn guards() -> PostprocessGuards {
    PostprocessGuards {
        exact_single_syllable: false,
        multi_syllable_layout: false,
        exact_guard_syllables: None,
        overlong_pinned_exact_guard_syllables: None,
    }
}

#[test]
fn single_syllable_keeps_pinned_single_characters_only() {
    let mut g = guards();
    g.exact_single_syllable = true;
    assert_eq!(candidate_postprocess_priority_groups(&lists(), g), vec![strings(&["是"])]);
}

#[test]
fn exact_guard_puts_pinned_first_and_cuts_long_user_phrases() {
    let mut g = guards();
    g.exact_guard_syllables = Some(2);
    let groups = candidate_postprocess_priority_groups(&lists(), g);
    assert_eq!(groups[0], strings(&["是", "实践"]));
    assert_eq!(groups[4], strings(&["时间"]));
    assert_eq!(groups[6], strings(&["时间", "实践"]));
    assert_eq!(groups.len(), 12);
}

#[test]
fn layout_takes_the_first_full_pinyin_phrase_only() {
    let mut g = guards();
    g.multi_syllable_layout = true;
    g.overlong_pinned_exact_guard_syllables = Some(2);
    let groups = candidate_postprocess_priority_groups(&lists(), g);
    assert_eq!(groups[2], strings(&["时间"]));
    assert_eq!(groups[4], strings(&["时间"]));
    assert_eq!(groups[5], strings(&["是", "实践"]));
    assert_eq!(groups.len(), 10);
}

#[test]
fn without_a_guard_user_phrases_come_last_and_lead_the_order() {
    let groups = candidate_postprocess_priority_groups(&lists(), guards());
    assert_eq!(groups.len(), 11);
    assert_eq!(groups[10], strings(&["时间", "时间表"]));
    let ranked = strings(&["视角", "事件", "实践"]);
    let (added, order) = candidate_postprocess_order(&ranked, &lists(), guards());
    assert_eq!(added, strings(&["是", "2024年", "时间", "时间表"]));
    // 是(3) 实践(2) 2024年(4) 视角(0) 时间(5) 时间表(6), then 事件(1).
    assert_eq!(order, vec![3, 2, 4, 0, 5, 6, 1]);
}

#[test]
fn layout_stage_drops_disabled_corrections_and_promotes_exact_user_phrase() {
    let mut l = lists();
    l.direct = Vec::new();
    l.pinned_user = Vec::new();
    l.exact_full_pinyin = Vec::new();
    l.exact_lexicon = Vec::new();
    l.exact_user = strings(&["实践"]);
    let mut g = guards();
    g.multi_syllable_layout = true;
    g.exact_guard_syllables = Some(2);
    let inp = LayoutPostprocessInput {
        best_correction: None,
        prefs: CorrectionPrefs { enabled: false, level: CorrectionLevel::Medium },
        suppress_correction: false,
        final_short_phrase_intent: Some(2),
        skip_final_short_density: false,
        full_pinyin_input: false,
        user_hotword_front_limit: 2,
        page_size: 9,
    };
    let r = multi_syllable_layout_postprocess(
        &strings(&["时间", "实践", "是", "视"]),
        &vec![false, false, false, true],
        &vec![false, true, false, false],
        &vec![false; 4],
        &l,
        g,
        inp,
    );
    assert_eq!(r, strings(&["实践", "时间", "是"]));
}

#[test]
fn final_stage_promotes_the_table_and_keeps_the_rest() {
    let ranked = strings(&["视角", "事件", "实践"]);
    let none = vec![false; 3];
    let r = final_postprocess_order(
        &ranked,
        &none,
        &none,
        &none,
        &none,
        &none,
        &lists(),
        guards(),
        "shijian",
        "shijian",
        None,
        0,
    );
    assert_eq!(r, strings(&["是", "实践", "2024年", "视角", "时间", "时间表", "事件"]));
}

#[test]
fn single_syllable_keeps_only_single_characters_with_pinned_first() {
    let mut g = guards();
    g.exact_single_syllable = true;
    let mut l = lists();
    l.pinned_user = strings(&["乐", "乐园"]);
    let ranked = strings(&["了", "乐园", "乐"]);
    let (added, order) = candidate_postprocess_order(&ranked, &l, g);
    assert!(added.is_empty());
    assert_eq!(order, vec![2, 0]);
    l.pinned_user = strings(&["勒"]);
    let (added, order) = candidate_postprocess_order(&ranked, &l, g);
    assert_eq!(added, strings(&["勒"]));
    assert_eq!(order, vec![3, 0, 2]);
}
