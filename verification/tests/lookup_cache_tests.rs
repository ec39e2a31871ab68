use pinyin_ime::cache::{final_lookup_cache_key, short_lookup_cache_key};
use pinyin_ime::engine::{PinyinEngine, MODE_ENGLISH_WORDS};
use pinyin_ime::lookup_cache::{FinalLookupCache, ShortLookupCache};

fn strings(items: &[&str]) -> Vec<String> {
    items.iter().map(|s| s.to_string()).collect()
}

#[test]
fn final_cache_returns_what_was_stored() {
    let mut cache = FinalLookupCache::new(4);
    let key = final_lookup_cache_key("nihao", 3, 0);
    assert_eq!(cache.get(&key), None);
    cache.insert(key.clone(), strings(&["你好", "拟好"]));
    assert_eq!(cache.get(&key), Some(strings(&["你好", "拟好"])));
    let other_epoch = final_lookup_cache_key("nihao", 3, 1);
    assert_eq!(cache.get(&other_epoch), None);
    let other_mode = final_lookup_cache_key("nihao", 1, 0);
    assert_eq!(cache.get(&other_mode), None);
}

#[test]
fn final_cache_does_not_keep_empty_lookups() {
    let mut cache = FinalLookupCache::new(4);
    let key = final_lookup_cache_key("zzz", 3, 0);
    cache.insert(key.clone(), Vec::new());
    assert_eq!(cache.get(&key), None);
}

#[test]
fn final_cache_evicts_the_least_recently_used_lookup() {
    let mut cache = FinalLookupCache::new(2);
    let a = final_lookup_cache_key("a", 0, 0);
    let b = final_lookup_cache_key("b", 0, 0);
    let c = final_lookup_cache_key("c", 0, 0);
    cache.insert(a.clone(), strings(&["啊"]));
    cache.insert(b.clone(), strings(&["不"]));
    // Reading `a` makes `b` the least recently used entry.
    assert_eq!(cache.get(&a), Some(strings(&["啊"])));
    cache.insert(c.clone(), strings(&["从"]));
    assert_eq!(cache.get(&b), None);
    assert_eq!(cache.get(&a), Some(strings(&["啊"])));
    assert_eq!(cache.get(&c), Some(strings(&["从"])));
}

#[test]
fn final_cache_replaces_a_lookup_under_the_same_key() {
    let mut cache = FinalLookupCache::new(2);
    let a = final_lookup_cache_key("a", 0, 0);
    let b = final_lookup_cache_key("b", 0, 0);
    cache.insert(a.clone(), strings(&["啊"]));
    cache.insert(b.clone(), strings(&["不"]));
    cache.insert(a.clone(), strings(&["阿"]));
    assert_eq!(cache.get(&a), Some(strings(&["阿"])));
    assert_eq!(cache.get(&b), Some(strings(&["不"])));
}

#[test]
fn final_cache_with_zero_capacity_holds_one_lookup() {
    let mut cache = FinalLookupCache::new(0);
    let a = final_lookup_cache_key("a", 0, 0);
    let b = final_lookup_cache_key("b", 0, 0);
    cache.insert(a.clone(), strings(&["啊"]));
    assert_eq!(cache.get(&a), Some(strings(&["啊"])));
    cache.insert(b.clone(), strings(&["不"]));
    assert_eq!(cache.get(&a), None);
    assert_eq!(cache.get(&b), Some(strings(&["不"])));
}

#[test]
fn final_cache_clear_forgets_everything() {
    let mut cache = FinalLookupCache::new(4);
    let a = final_lookup_cache_key("a", 0, 0);
    cache.insert(a.clone(), strings(&["啊"]));
    cache.clear();
    assert_eq!(cache.get(&a), None);
}

#[test]
fn cached_lookup_matches_cold_lookup() {
    let mut engine = PinyinEngine::with_phrase_dir(None);
    engine.learn_commit("shishi", "事实").expect("learn");
    let cold = engine.lookup_tsf_candidates("shishi");
    let cached = engine.lookup_tsf_candidates("shishi");
    assert_eq!(cold, cached);
    assert_eq!(cold.first().map(String::as_str), Some("事实"));
    let page = engine.lookup_first_page("shishi");
    assert_eq!(page.as_slice(), &cold[..page.len()]);
}

#[test]
fn learning_invalidates_cached_lookups() {
    let mut engine = PinyinEngine::with_phrase_dir(None);
    let before = engine.lookup_tsf_candidates("shishi");
    assert!(!before.iter().any(|c| c == "实时"));
    let epoch = engine.cache_epoch();
    engine.learn_commit("shishi", "实时").expect("learn");
    assert_eq!(engine.cache_epoch(), epoch.wrapping_add(1));
    let after = engine.lookup_tsf_candidates("shishi");
    assert_eq!(after.first().map(String::as_str), Some("实时"));
}

#[test]
fn blocking_and_removing_invalidate_cached_lookups() {
    let mut engine = PinyinEngine::with_phrase_dir(None);
    engine.learn_commit("shishi", "实时").expect("learn");
    assert!(engine.lookup_tsf_candidates("shishi").iter().any(|c| c == "实时"));
    assert_eq!(engine.block_user_phrase("实时"), Ok(true));
    assert!(!engine.lookup_tsf_candidates("shishi").iter().any(|c| c == "实时"));
    let epoch = engine.cache_epoch();
    assert_eq!(engine.block_user_phrase("实时"), Ok(false));
    assert_eq!(engine.cache_epoch(), epoch);
    assert_eq!(engine.unblock_user_phrase("实时"), Ok(true));
    assert!(engine.lookup_tsf_candidates("shishi").iter().any(|c| c == "实时"));
    assert_eq!(engine.remove_user_phrase("shishi", "实时"), Ok(true));
    assert!(!engine.lookup_tsf_candidates("shishi").iter().any(|c| c == "实时"));
    let epoch = engine.cache_epoch();
    assert_eq!(engine.remove_user_phrase("shishi", "实时"), Ok(false));
    assert_eq!(engine.cache_epoch(), epoch);
}

#[test]
fn commits_that_learn_nothing_keep_the_cache_epoch() {
    let mut engine = PinyinEngine::with_phrase_dir(None);
    let epoch = engine.cache_epoch();
    engine.learn_commit("", "你好").expect("empty reading");
    engine.learn_commit("nihao", "   ").expect("empty phrase");
    assert_eq!(engine.cache_epoch(), epoch);
    engine.reset_learning_context();
    assert_eq!(engine.cache_epoch(), epoch.wrapping_add(1));
}

#[test]
fn short_cache_is_keyed_by_the_user_clock() {
    let mut cache = ShortLookupCache::new(8);
    let key = short_lookup_cache_key("ni", 3, 5, 0);
    cache.insert(key.clone(), strings(&["你", "尼"]));
    assert_eq!(cache.get(&key), Some(strings(&["你", "尼"])));
    let later = short_lookup_cache_key("ni", 3, 6, 0);
    assert_eq!(cache.get(&later), None);
    cache.insert(later.clone(), Vec::new());
    assert_eq!(cache.get(&later), None);
    cache.clear();
    assert_eq!(cache.get(&key), None);
}

#[test]
fn short_cache_evicts_the_least_recently_used_lookup() {
    let mut cache = ShortLookupCache::new(1);
    let a = short_lookup_cache_key("a", 0, 0, 0);
    let b = short_lookup_cache_key("b", 0, 0, 0);
    cache.insert(a.clone(), strings(&["啊"]));
    cache.insert(b.clone(), strings(&["不"]));
    assert_eq!(cache.get(&a), None);
    assert_eq!(cache.get(&b), Some(strings(&["不"])));
}

#[test]
fn short_and_long_lookups_repeat_identically() {
    let mut engine = PinyinEngine::with_phrase_dir(None);
    engine.learn_commit("ni", "你").expect("learn");
    for input in ["ni", "nihao", "zhongguorenmin", "ni hao"] {
        let cold = engine.lookup_tsf_candidates(input);
        let again = engine.lookup_tsf_candidates(input);
        assert_eq!(cold, again, "{input}");
    }
    assert_eq!(engine.lookup_tsf_candidates("ni").first().map(String::as_str), Some("你"));
}

#[test]
fn mode_change_forgets_cached_lookups_but_not_their_answers() {
    let mut engine = PinyinEngine::with_phrase_dir(None);
    let before = engine.lookup_tsf_candidates("hao");
    let epoch = engine.cache_epoch();
    let mode = engine.mode_flags();
    engine.set_mode_flags(mode | MODE_ENGLISH_WORDS);
    assert_eq!(engine.cache_epoch(), epoch.wrapping_add(1));
    assert_eq!(engine.lookup_tsf_candidates("hao"), before);
    engine.set_mode_flags(mode | MODE_ENGLISH_WORDS);
    assert_eq!(engine.cache_epoch(), epoch.wrapping_add(1));
}

#[test]
fn warmup_keeps_lookup_answers() {
    let mut warm = PinyinEngine::new();
    warm.warmup_interactive_paths();
    let mut cold = PinyinEngine::new();
    for input in ["ni", "nihao", "zhonghuarenmingongheguo", "beijing"] {
        assert_eq!(warm.lookup_tsf_candidates(input), cold.lookup_tsf_candidates(input));
    }
}
