//! What the ranking reads of a candidate's metadata: how it matched the
//! input, where it came from, which lexicon layer holds it, and whether it
//! carries a user mark; and the priorities that follow from them.
use vstd::prelude::*;
use vstd::hash_set::StringHashSet;
use crate::intent::InputIntent;
use crate::learning::phrase_char_count;
use crate::text::count_non_ws;

verus! {

/// How a candidate matched the input.
#[derive(Clone, Copy, Debug, PartialEq, Eq, Structural)]
pub enum CandidateMatchKind {
    User,
    Direct,
    Shortcut,
    DateTime,
    MixedPrefix,
    FullPinyin,
    ShortAbbrev,
    English,
    Correction,
    SingleSyllable,
    Unknown,
}

/// Where a candidate came from.
#[derive(Clone, Copy, Debug, PartialEq, Eq, Structural)]
pub enum CandidateSource {
    User,
    System,
    Abbrev,
    Pinyin,
    Mixed,
    Direct,
    Shortcut,
    DateTime,
    UMode,
    English,
    Correction,
}

/// The lexicon layer that holds a phrase.
#[derive(Clone, Copy, Debug, PartialEq, Eq, Structural)]
pub enum LexiconLayer {
    Core,
    Base,
    Ext,
    Large,
    En,
    Unknown,
}

/// A candidate's metadata as the ranking reads it.
#[derive(Clone, Copy, Debug)]
pub struct CandidateMeta {
    /// The user pinned it.
    pub pinned: bool,
    pub match_kind: CandidateMatchKind,
    pub source: CandidateSource,
    pub source_layer: LexiconLayer,
    /// Its display text marks it as a user phrase.
    pub user_mark: bool,
    /// It has a display text.
    pub has_display_text: bool,
}

pub open spec fn merged_priority(meta: CandidateMeta) -> u8 {
    match meta.match_kind {
        CandidateMatchKind::User => 8,
        CandidateMatchKind::Direct | CandidateMatchKind::Shortcut | CandidateMatchKind::DateTime => 7,
        CandidateMatchKind::MixedPrefix
        | CandidateMatchKind::FullPinyin
        | CandidateMatchKind::ShortAbbrev
        | CandidateMatchKind::English => 6,
        CandidateMatchKind::Correction => 5,
        CandidateMatchKind::SingleSyllable => 3,
        CandidateMatchKind::Unknown => if meta.has_display_text {
            2
        } else {
            0
        },
    }
}

/// Which metadata wins when two candidates of one phrase merge: a user
/// match, then a direct input, shortcut or date/time, then a lexicon match,
/// then a correction, then a single syllable, then unknown metadata with a
/// display text, then the rest.
pub fn merged_meta_priority(meta: &CandidateMeta) -> (r: u8)
    ensures
        r == merged_priority(*meta),
{
    match meta.match_kind {
        CandidateMatchKind::User => 8,
        CandidateMatchKind::Direct | CandidateMatchKind::Shortcut | CandidateMatchKind::DateTime => 7,
        CandidateMatchKind::MixedPrefix
        | CandidateMatchKind::FullPinyin
        | CandidateMatchKind::ShortAbbrev
        | CandidateMatchKind::English => 6,
        CandidateMatchKind::Correction => 5,
        CandidateMatchKind::SingleSyllable => 3,
        CandidateMatchKind::Unknown => if meta.has_display_text {
            2
        } else {
            0
        },
    }
}

/// The candidate has user priority: it comes from the user, is pinned, or
/// carries a user mark.
pub open spec fn has_user_priority(meta: CandidateMeta) -> bool {
    meta.source == CandidateSource::User || meta.pinned || meta.user_mark
}

pub fn candidate_has_user_priority(meta: &CandidateMeta) -> (r: bool)
    ensures
        r == has_user_priority(*meta),
{
    meta.source == CandidateSource::User || meta.pinned || meta.user_mark
}

/// The candidate holds the front against the user's hot words: it is
/// pinned, or a direct input, shortcut, date/time or special-mode entry.
pub open spec fn hotword_front_anchor(meta: CandidateMeta) -> bool {
    meta.pinned || meta.source == CandidateSource::Direct || meta.source == CandidateSource::Shortcut
        || meta.source == CandidateSource::DateTime || meta.source == CandidateSource::UMode
}

pub fn is_user_hotword_front_anchor(meta: &CandidateMeta) -> (r: bool)
    ensures
        r == hotword_front_anchor(*meta),
{
    meta.pinned || meta.source == CandidateSource::Direct || meta.source == CandidateSource::Shortcut
        || meta.source == CandidateSource::DateTime || meta.source == CandidateSource::UMode
}

/// Not from the extension or English layer.
pub open spec fn primary_or_unknown_layer(meta: CandidateMeta) -> bool {
    meta.source_layer != LexiconLayer::Ext && meta.source_layer != LexiconLayer::En
}

/// An exact full-pinyin phrase of the asked syllable count outside the
/// extension and English layers.
pub open spec fn exact_full_pinyin_hit(
    meta: CandidateMeta,
    phrase: Seq<char>,
    exact: Set<Seq<char>>,
    exact_syllable_count: Option<usize>,
) -> bool {
    &&& exact.contains(phrase)
    &&& exact_syllable_count matches Some(c) && count_non_ws(phrase) == c
    &&& primary_or_unknown_layer(meta)
}

fn exact_full_pinyin_hit_exec(
    meta: &CandidateMeta,
    phrase: &str,
    exact: &StringHashSet,
    exact_syllable_count: Option<usize>,
) -> (r: bool)
    ensures
        r == exact_full_pinyin_hit(*meta, phrase@, exact@, exact_syllable_count),
{
    exact.contains(phrase) && match exact_syllable_count {
        Some(c) => phrase_char_count(phrase) == c,
        None => false,
    } && meta.source_layer != LexiconLayer::Ext && meta.source_layer != LexiconLayer::En
}

/// The candidate keeps a correction from taking the front: it is pinned or
/// has user priority, or it is an exact full-pinyin hit matched as full
/// pinyin or from the pinyin source.
pub open spec fn blocks_correction_front(
    meta: CandidateMeta,
    phrase: Seq<char>,
    exact: Set<Seq<char>>,
    exact_syllable_count: Option<usize>,
) -> bool {
    if meta.pinned || has_user_priority(meta) {
        true
    } else if meta.match_kind != CandidateMatchKind::FullPinyin && meta.source != CandidateSource::Pinyin {
        false
    } else {
        exact_full_pinyin_hit(meta, phrase, exact, exact_syllable_count)
    }
}

pub fn candidate_blocks_correction_front(
    meta: &CandidateMeta,
    phrase: &str,
    exact_full_pinyin_phrases: &StringHashSet,
    exact_syllable_count: Option<usize>,
) -> (r: bool)
    ensures
        r == blocks_correction_front(*meta, phrase@, exact_full_pinyin_phrases@, exact_syllable_count),
{
    if meta.pinned || candidate_has_user_priority(meta) {
        return true;
    }
    if meta.match_kind != CandidateMatchKind::FullPinyin && meta.source != CandidateSource::Pinyin {
        return false;
    }
    exact_full_pinyin_hit_exec(meta, phrase, exact_full_pinyin_phrases, exact_syllable_count)
}

/// A core or base mixed-prefix phrase of three or more characters (and no
/// more than the short intent asks for), or for a two-character intent a
/// core two-character mixed-prefix or abbreviation match.
pub open spec fn core_long_mixed_prefix(meta: CandidateMeta, phrase: Seq<char>, short_intent_chars: Option<usize>) -> bool {
    let chars = count_non_ws(phrase);
    let exact_short_core_collision = short_intent_chars == Some(2usize) && chars == 2 && meta.source_layer
        == LexiconLayer::Core && (meta.match_kind == CandidateMatchKind::MixedPrefix || meta.match_kind
        == CandidateMatchKind::ShortAbbrev);
    exact_short_core_collision || (meta.match_kind == CandidateMatchKind::MixedPrefix && (meta.source_layer
        == LexiconLayer::Core || meta.source_layer == LexiconLayer::Base) && chars >= 3 && match short_intent_chars {
        Some(ic) => chars <= ic,
        None => true,
    })
}

pub fn is_core_long_mixed_prefix_candidate(meta: &CandidateMeta, phrase: &str, short_intent_chars: Option<usize>) -> (r:
    bool)
    ensures
        r == core_long_mixed_prefix(*meta, phrase@, short_intent_chars),
{
    let chars = phrase_char_count(phrase);
    let exact_short_core_collision = short_intent_chars == Some(2usize) && chars == 2 && meta.source_layer
        == LexiconLayer::Core && (meta.match_kind == CandidateMatchKind::MixedPrefix || meta.match_kind
        == CandidateMatchKind::ShortAbbrev);
    exact_short_core_collision || (meta.match_kind == CandidateMatchKind::MixedPrefix && (meta.source_layer
        == LexiconLayer::Core || meta.source_layer == LexiconLayer::Base) && chars >= 3 && match short_intent_chars {
        Some(ic) => chars <= ic,
        None => true,
    })
}

/// How firmly a candidate may hold the first place: pinned 50, user
/// priority 40, an English match for English input 45, an exact
/// full-pinyin hit 32, a full-pinyin match outside the extension and
/// English layers 24, a mixed prefix 18, an English match 4, another match
/// from the extension layer 6, anything else 12.
pub open spec fn top1_priority(
    meta: CandidateMeta,
    phrase: Seq<char>,
    exact: Set<Seq<char>>,
    exact_syllable_count: Option<usize>,
    intent: InputIntent,
) -> i32 {
    if meta.pinned {
        50
    } else if has_user_priority(meta) {
        40
    } else if intent == InputIntent::English && (meta.match_kind == CandidateMatchKind::English || meta.source
        == CandidateSource::English || meta.source_layer == LexiconLayer::En) {
        45
    } else if exact_full_pinyin_hit(meta, phrase, exact, exact_syllable_count) {
        32
    } else if meta.match_kind == CandidateMatchKind::FullPinyin && primary_or_unknown_layer(meta) {
        24
    } else if meta.match_kind == CandidateMatchKind::MixedPrefix {
        18
    } else if meta.match_kind == CandidateMatchKind::English {
        4
    } else if meta.source_layer == LexiconLayer::Ext {
        6
    } else {
        12
    }
}

pub fn top1_confidence_priority(
    meta: &CandidateMeta,
    phrase: &str,
    exact_full_pinyin_phrases: &StringHashSet,
    exact_syllable_count: Option<usize>,
    input_intent: InputIntent,
) -> (r: i32)
    ensures
        r == top1_priority(*meta, phrase@, exact_full_pinyin_phrases@, exact_syllable_count, input_intent),
{
    if meta.pinned {
        return 50;
    }
    if candidate_has_user_priority(meta) {
        return 40;
    }
    if input_intent == InputIntent::English && (meta.match_kind == CandidateMatchKind::English || meta.source
        == CandidateSource::English || meta.source_layer == LexiconLayer::En) {
        return 45;
    }
    if exact_full_pinyin_hit_exec(meta, phrase, exact_full_pinyin_phrases, exact_syllable_count) {
        return 32;
    }
    match meta.match_kind {
        CandidateMatchKind::FullPinyin if meta.source_layer != LexiconLayer::Ext && meta.source_layer
            != LexiconLayer::En => 24,
        CandidateMatchKind::MixedPrefix => 18,
        CandidateMatchKind::English => 4,
        _ => if meta.source_layer == LexiconLayer::Ext {
            6
        } else {
            12
        },
    }
}

/// The set of `phrases`.
pub fn phrase_set(phrases: &Vec<String>) -> (r: StringHashSet)
    ensures
        forall|p: Seq<char>| r@.contains(p) <==> exists|i: int| 0 <= i < phrases@.len() && (#[trigger] phrases@[i])@ == p,
{
    let mut set = StringHashSet::new();
    let mut i: usize = 0;
    while i < phrases.len()
        invariant
            i <= phrases.len(),
            forall|p: Seq<char>| set@.contains(p) <==> exists|k: int| 0 <= k < i && (#[trigger] phrases@[k])@ == p,
        decreases phrases.len() - i,
    {
        set.insert(phrases[i].clone());
        proof {
            assert forall|p: Seq<char>| set@.contains(p) <==> exists|k: int| 0 <= k < i + 1 && (#[trigger] phrases@[k])@ == p by {
                if p == phrases@[i as int]@ {
                    assert(phrases@[i as int]@ == p);
                }
            }
        }
        i += 1;
    }
    set
}

} // verus!
