use pinyin_ime::single_char_common::{parse_u64_vec, IndexError, IndexRowProblem, SingleCharCommonIndex};

#[test]
fn excludes_historical_neng_xiong_reading() {
    let index = SingleCharCommonIndex::from_text("能\t2\n熊\t1\n").expect("single-character index");
    assert_eq!(index.pinyin_order("neng"), vec!['能']);
    assert_eq!(index.pinyin_order("xiong"), vec!['熊']);
}

#[test]
fn single_char_index_keeps_list_order_and_initials() {
    let index = SingleCharCommonIndex::from_text("\u{feff}# common\n中\t30\n\n重\t+20\n  钟 \t 10 \n").expect("index");
    assert_eq!(index.character_count(), 3);
    assert_eq!(index.pinyin_order("zhong"), vec!['中', '重', '钟']);
    assert_eq!(index.pinyin_order("chong"), vec!['重']);
    assert_eq!(index.initial_order('Z'), vec!['中', '重', '钟']);
    assert_eq!(index.initial_order('c'), vec!['重']);
    assert!(index.pinyin_order("").is_empty());
    assert!(index.initial_order('x').is_empty());
}

#[test]
fn single_char_index_refuses_bad_rows() {
    let err = |text: &str| SingleCharCommonIndex::from_text(text).err();
    assert_eq!(err("中 30\n"), Some(IndexError::Row(1, IndexRowProblem::MissingTab)));
    // Surrounding whitespace is trimmed first, so a row whose character
    // column is blank has lost its tab as well.
    assert_eq!(err("中\t3\n \t2\n"), Some(IndexError::Row(2, IndexRowProblem::MissingTab)));
    assert_eq!(err("中国\t3\n"), Some(IndexError::Row(1, IndexRowProblem::NotOneCharacter)));
    assert_eq!(err("中\t-3\n"), Some(IndexError::Row(1, IndexRowProblem::BadWeight)));
    assert_eq!(err("中\t18446744073709551616\n"), Some(IndexError::Row(1, IndexRowProblem::BadWeight)));
    assert_eq!(err("中\t3\n国\t3\n"), Some(IndexError::Row(2, IndexRowProblem::NotDescending)));
    assert_eq!(err("中\t3\n中\t2\n"), Some(IndexError::Row(2, IndexRowProblem::DuplicateCharacter)));
    assert_eq!(err("a\t3\n"), Some(IndexError::Row(1, IndexRowProblem::NoPinyin)));
    assert_eq!(err("# only a comment\n\n"), Some(IndexError::Empty));
}

#[test]
fn weights_parse_as_unsigned_integers() {
    let p = |s: &str| parse_u64_vec(&s.chars().collect());
    assert_eq!(p("0"), Some(0));
    assert_eq!(p("+42"), Some(42));
    assert_eq!(p("18446744073709551615"), Some(u64::MAX));
    assert_eq!(p("18446744073709551616"), None);
    assert_eq!(p("+"), None);
    assert_eq!(p(""), None);
    assert_eq!(p("4 2"), None);
    assert_eq!(p("-1"), None);
}
