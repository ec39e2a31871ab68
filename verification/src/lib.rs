//! Verified core of a pinyin input method: dictionary indexing, text
//! classification, preference parsing, candidate arrangement, caches and the
//! learning engine.
pub mod text;
pub mod order;
pub mod frequency_order;
pub mod priority_groups;
pub mod phrase_head;
pub mod parse_variants;
pub mod candidate_meta;
pub mod common_singles;
pub mod lookup_checks;
pub mod learning;
pub mod dict;
pub mod user_lexicon;
pub mod learn_plan;
pub mod intent;
pub mod engine;
pub mod pagination;
pub mod postprocess;
pub mod three_char;
pub mod cache;
pub mod lookup_cache;
pub mod literal;
pub mod correction_prefs;
pub mod custom_shortcuts;
pub mod single_char_common;
pub mod phrase_lexicon;
pub mod lookup_route;
pub mod lookup_session;
pub mod partial_page;
pub mod postprocess_groups;
