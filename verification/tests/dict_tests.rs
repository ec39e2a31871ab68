use pinyin_ime::dict::{build_dict, normalize_pinyin_key, pinyin_plain_options, reading_options, AliasRow};

#[test]
fn build_dict_indexes_heteronym_readings() {
    let dict = build_dict("重");
    assert!(dict.get("zhong").is_some_and(|chars| chars.contains(&'重')));
    assert!(dict.get("chong").is_some_and(|chars| chars.contains(&'重')));
}

#[test]
fn build_dict_uses_v_form_for_umlaut_syllables() {
    let dict = build_dict("\u{8650}\u{7565}");
    assert!(dict.get("nve").is_some_and(|chars| chars.contains(&'\u{8650}')));
    assert!(dict.get("lve").is_some_and(|chars| chars.contains(&'\u{7565}')));
    assert!(!dict.contains_key("nue"));
    assert!(!dict.contains_key("lue"));
}

#[test]
fn build_dict_excludes_historical_neng_xiong_reading() {
    let dict = build_dict("能熊");
    assert!(dict.get("neng").is_some_and(|chars| chars.contains(&'能')));
    assert!(dict.get("xiong").is_some_and(|chars| chars.contains(&'熊')));
    assert!(!dict.get("xiong").is_some_and(|chars| chars.contains(&'能')));
}

#[test]
fn excludes_historical_single_character_readings_from_common_collisions() {
    let historical = [
        ('而', "neng"),
        ('是', "ti"),
        ('不', "fou"),
        ('也', "yi"),
        ('他', "tuo"),
        ('年', "ning"),
        ('个', "gan"),
        ('前', "jian"),
        ('听', "yin"),
        ('她', "jie"),
        ('它', "tuo"),
        ('能', "xiong"),
    ];
    for (ch, reading) in historical {
        assert!(
            !pinyin_plain_options(ch).iter().any(|value| value == reading),
            "unexpected historical reading {ch} -> {reading}"
        );
    }
}

#[test]
fn keeps_project_approved_modern_single_character_aliases() {
    assert!(pinyin_plain_options('重').contains(&"chong".to_string()));
    assert!(pinyin_plain_options('行').contains(&"hang".to_string()));
    assert!(pinyin_plain_options('着').contains(&"zhao".to_string()));
}

#[test]
fn plain_options_start_with_the_primary_reading() {
    let options = pinyin_plain_options('重');
    assert_eq!(options[0], "zhong");
    assert!(options.iter().filter(|o| o.as_str() == "chong").count() == 1);
}

#[test]
fn normalize_pinyin_key_writes_umlaut_as_v() {
    assert_eq!(normalize_pinyin_key("nüe"), "nve");
    assert_eq!(normalize_pinyin_key("lue"), "lve");
    assert_eq!(normalize_pinyin_key("nue"), "nve");
    assert_eq!(normalize_pinyin_key("zhong"), "zhong");
}

#[test]
fn build_dict_lists_characters_in_ascending_order() {
    let dict = build_dict("熊能");
    let xiong = dict.get("xiong").expect("xiong");
    assert_eq!(xiong, &vec!['熊']);
    let dict = build_dict("中重");
    let zhong = dict.get("zhong").expect("zhong");
    let mut sorted = zhong.clone();
    sorted.sort();
    assert_eq!(zhong, &sorted);
    assert!(zhong.contains(&'中') && zhong.contains(&'重'));
}

#[test]
fn reading_options_normalize_the_primary_reading_then_add_aliases_once() {
    use_reading_options();
}

fn use_reading_options() {
    let rows = vec![
        AliasRow { ch: '女', reading: "nv".to_string() },
        AliasRow { ch: '女', reading: "ru".to_string() },
        AliasRow { ch: '行', reading: "hang".to_string() },
    ];
    assert_eq!(reading_options('女', Some("Nv"), &rows), vec!["nv".to_string(), "ru".to_string()]);
    assert_eq!(reading_options('行', None, &rows), vec!["hang".to_string()]);
    assert_eq!(reading_options('行', Some("xing"), &rows), vec!["xing".to_string(), "hang".to_string()]);
}
