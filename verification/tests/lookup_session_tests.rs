use pinyin_ime::lookup_session::{BatchCandidate, LookupSession, MAX_PENDING_FULL_RETRY_KEYS};

fn session() -> LookupSession {
    LookupSession { mode_flags: 3, cache_epoch: 7, user_clock: 11, retry_keys: Vec::new(), continuation: None }
}

fn strings(items: &[&str]) -> Vec<String> {
    items.iter().map(|s| s.to_string()).collect()
}

fn phrases(shown: &[BatchCandidate]) -> Vec<String> {
    shown.iter().map(|c| c.phrase.clone()).collect()
}

#[test]
fn first_batch_is_cut_to_a_page_and_left_to_continue() {
    let mut s = session();
    let kept = strings(&["一", "二", "三", "四", "五", "六", "七", "八", "九", "十", "十一"]);
    let (shown, err) = s.finish_partial_first_batch("zhongguorenmin", kept, 5, false);
    assert_eq!(phrases(&shown), strings(&["一", "二", "三", "四", "五"]));
    assert!(err.is_none());
    assert!(shown[0].partial && !shown[0].ascii_direct);
    assert!(shown[1..].iter().all(|c| !c.partial && !c.ascii_direct));
    let c = s.continuation.as_ref().expect("continuation");
    assert_eq!((c.raw.as_str(), c.mode_flags, c.cache_epoch, c.user_clock), ("zhongguorenmin", 3, 7, 11));
    assert!(s.has_pending_full_lookup_retry("zhongguorenmin"));
    assert!(!s.has_pending_full_lookup_retry("zhongguo"));
}

#[test]
fn page_size_is_clamped_and_empty_batch_shows_the_input() {
    let mut s = session();
    let kept = strings(&["一", "二", "三", "四"]);
    let (shown, _) = s.finish_partial_first_batch("abc", kept, 1, false);
    assert_eq!(shown.len(), 3);
    let (shown, err) = s.finish_partial_first_batch("xyzw", Vec::new(), 9, false);
    assert_eq!(phrases(&shown), strings(&["xyzw"]));
    assert!(shown[0].partial && shown[0].ascii_direct);
    assert!(err.is_none());
}

#[test]
fn superseded_batch_shows_nothing_but_stays_armed() {
    let mut s = session();
    let (shown, err) = s.finish_partial_first_batch("nihao", strings(&["你好"]), 9, true);
    assert!(shown.is_empty());
    assert_eq!(err.as_deref(), Some("lookup superseded"));
    assert!(s.continuation.is_none());
    assert!(s.has_pending_full_lookup_retry("nihao"));
}

#[test]
fn retry_keys_keep_the_newest_once() {
    let mut s = session();
    for i in 0..(MAX_PENDING_FULL_RETRY_KEYS + 2) {
        s.arm_full_lookup_retry(&format!("key{i}"));
    }
    s.arm_full_lookup_retry("key5");
    assert_eq!(s.retry_keys.len(), MAX_PENDING_FULL_RETRY_KEYS);
    assert_eq!(s.retry_keys.last().map(|k| k.0.as_str()), Some("key5"));
    assert_eq!(s.retry_keys.iter().filter(|k| k.0 == "key5").count(), 1);
    assert!(!s.has_pending_full_lookup_retry("key0"));
    assert!(!s.has_pending_full_lookup_retry("key1"));
    s.mode_flags = 1;
    assert!(!s.has_pending_full_lookup_retry("key5"));
}
