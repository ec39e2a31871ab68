//! The pinyin engine: its character index, mode flags, user dictionary and
//! the lookup of candidates for a reading.
use vstd::prelude::*;
use vstd::hash_map::StringHashMap;
use vstd::hash_set::StringHashSet;
use crate::dict::{
    contains_string, alias_rows, alias_rows_view, build_index_with, is_reading_index, normalized_key,
    parse_alias_table, sorted_strict, strings_view, PRONUNCIATION_ALIASES,
};
use crate::text::{chars_of, is_alpha, is_alpha_char, lower_seq, lower_vec, prefix_of, string_of};
use crate::user_lexicon::{is_ranking, lemma_ranking_unique, strs_view, EntryView, FeedbackView, UserLexicon};
use crate::learn_plan::{
    auto_novel, auto_novel_phrase_parts, extra_learn_ops, extra_learn_ops_vec, full_pinyin_syllables,
    full_syllables, is_direct_input_shortcut_key, is_shortcut_key, pairs_view, prefix_reading_len,
    AUTO_NOVEL_MAX_CHARS,
};
use crate::learning::{learnable_chars, learnable_phrase, learnable_single_char, learnable_single_chars};
use crate::text::{lower_char, slice_vec, trim_seq, trim_start_seq, trim_vec};
use crate::intent::{
    classify_input_intent, exact_single_syllable, intent_of, is_exact_complete_single_syllable_input,
    is_mixed_prefix_input_intent, is_pure_short_abbrev_initial_input, mixed_prefix_intent, plain_ascii_word,
    preserve_ascii, pure_short_abbrev, InputIntent, MixedPinyinKeyExpansion, SHORT_HOTWORD_MAX_CHARS,
};
use crate::learn_plan::{selection_feedback, selection_feedback_vec};
use crate::user_lexicon::{
    add_feedback, add_feedback_all, feedback_all, entry_pinned, entry_removed, feedback_added, feedbacks_view,
    apply_learns, entry_index, has_entry, lemma_removed_absent, lemma_pinned_unique, lemma_apply_learns_unique, lemma_learned_unique, unique_entries, lemma_apply_learns_keeps, lemma_learned_keeps, learned, offered,
    sat_add,
};
use crate::cache::{
    final_cacheable, final_lookup_cache_key, is_final_lookup_cacheable, is_short_lookup_cacheable, short_cacheable,
    short_lookup_cache_key, DEFAULT_FINAL_LOOKUP_CACHE_CAPACITY, DEFAULT_SHORT_LOOKUP_CACHE_CAPACITY,
};
use crate::single_char_common::SingleCharCommonIndex;
use crate::phrase_lexicon::{
    entries_view, lexicon_phrases, lookup_rows, parse_lexicon, parse_lexicon_abbreviations,
    parse_lexicon_abbreviations_text, parse_lexicon_mixed, parse_lexicon_mixed_text, parse_lexicon_text,
    phrases_for_key, PhraseEntry,
};
use crate::lookup_cache::{
    clone_strings, final_key_view, lemma_lru_value_after_touch, lru_value, short_key_view, FinalLookupCache,
    LookupCacheEntry, ShortCacheEntry, ShortLookupCache,
};

verus! {

pub const MODE_JIANPIN: u32 = 1;
pub const MODE_MIXED_PINYIN: u32 = 2;
pub const MODE_FUZZY_PINYIN: u32 = 4;
pub const MODE_DOUBLE_PINYIN: u32 = 8;
pub const MODE_TRADITIONAL_OUTPUT: u32 = 16;
pub const MODE_ENGLISH_WORDS: u32 = 32;
pub const MODE_LEARNING_AGGRESSIVE: u32 = 64;
pub const MODE_LEARNING_CONSERVATIVE: u32 = 128;
pub const MODE_CLIPBOARD_BACKGROUND: u32 = 256;
pub const MODE_CLIPBOARD_DISABLED: u32 = 512;
pub const DEFAULT_MODE_FLAGS: u32 = 3;

pub const LEARN_FLAG_WEAK: u32 = 1;
pub const LEARN_FLAG_COMPOSED_PHRASE: u32 = 2;
pub const LEARN_FLAG_NO_LEARN: u32 = 4;

/// Candidates shown on one page of the candidate window.
pub const TSF_PAGE_SIZE: usize = 9;
/// Candidates that one lookup hands to the candidate window at most.
pub const LOOKUP_FULL_MAX_CANDIDATES: usize = 1024;

/// The first and last code point of the CJK Unified Ideographs block, whose
/// characters the engine indexes by default.
pub const BUILTIN_FIRST_CODE_POINT: u32 = 0x4E00;
pub const BUILTIN_LAST_CODE_POINT: u32 = 0x9FFF;

/// `char::from_u32`: the character with code point `u`, when `u` is one.
#[verifier::external_body]
fn char_from_u32(u: u32) -> (r: Option<char>)
    ensures
        match r {
            Some(c) => c as u32 == u && c == u as char,
            None => (0xD800 <= u && u <= 0xDFFF) || u > 0x10FFFF,
        },
{
    char::from_u32(u)
}

/// The characters of the CJK Unified Ideographs block, in code point order.
pub fn builtin_characters() -> (r: Vec<char>)
    ensures
        r@.len() == BUILTIN_LAST_CODE_POINT - BUILTIN_FIRST_CODE_POINT + 1,
        r@ == builtin_characters_spec(),
{
    let mut out: Vec<char> = Vec::new();
    let mut u: u32 = BUILTIN_FIRST_CODE_POINT;
    while u <= BUILTIN_LAST_CODE_POINT
        invariant
            BUILTIN_FIRST_CODE_POINT <= u <= BUILTIN_LAST_CODE_POINT + 1,
            out@.len() == u - BUILTIN_FIRST_CODE_POINT,
            forall|i: int| 0 <= i < out@.len() ==> #[trigger] out@[i] == (BUILTIN_FIRST_CODE_POINT + i) as char,
        decreases BUILTIN_LAST_CODE_POINT + 1 - u,
    {
        match char_from_u32(u) {
            Some(c) => out.push(c),
            None => {
                assert(false);
            },
        }
        u += 1;
    }
    assert(out@ =~= builtin_characters_spec());
    out
}

/// The ASCII letters of `s`, in order.
pub open spec fn letters_of(s: Seq<char>) -> Seq<char>
    decreases s.len(),
{
    if s.len() == 0 {
        s
    } else if is_alpha(s.last()) {
        letters_of(s.drop_last()).push(s.last())
    } else {
        letters_of(s.drop_last())
    }
}

/// The lookup key of a reading: its letters, lower-cased, in `v` spelling.
pub open spec fn compact_key(s: Seq<char>) -> Seq<char> {
    normalized_key(lower_seq(letters_of(s)))
}

pub(crate) fn compact_key_vec(s: &Vec<char>) -> (r: Vec<char>)
    ensures
        r@ == compact_key(s@),
{
    let mut letters: Vec<char> = Vec::new();
    let mut i: usize = 0;
    while i < s.len()
        invariant
            i <= s.len(),
            letters@ == letters_of(s@.take(i as int)),
        decreases s.len() - i,
    {
        assert(s@.take(i + 1).drop_last() =~= s@.take(i as int));
        if is_alpha_char(s[i]) {
            letters.push(s[i]);
        }
        i += 1;
    }
    assert(s@.take(s.len() as int) =~= s@);
    let lowered = lower_vec(&letters);
    crate::dict::normalize_key_vec(&lowered)
}

/// The lookup key of a reading.
pub fn compact_lookup_key(s: &str) -> (r: String)
    ensures
        r@ == compact_key(s@),
{
    let v = chars_of(s);
    let k = compact_key_vec(&v);
    string_of(&k)
}

/// The reading whose characters a lookup of `key` offers: `key` itself when
/// it is a reading, else its longest prefix that is one.
pub open spec fn single_reading(dict: Map<Seq<char>, Vec<char>>, key: Seq<char>) -> Option<Seq<char>> {
    if dict.contains_key(key) {
        Some(key)
    } else {
        let p = prefix_reading_len(dict, key, key.len() as int);
        if p > 0 {
            Some(key.take(p))
        } else {
            None
        }
    }
}

/// The characters the common-character list ranks for `reading`, most
/// frequent first; none without a list.
pub open spec fn common_order(common: Option<SingleCharCommonIndex>, reading: Seq<char>) -> Seq<char> {
    match common {
        Some(ix) => ix.reading_order(reading),
        None => Seq::empty(),
    }
}

/// `chars` with those that `order` ranks first, in its order, then the
/// others in their order.
pub open spec fn common_first(chars: Seq<char>, order: Seq<char>) -> Seq<char> {
    order.filter(|c: char| chars.contains(c)) + chars.filter(|c: char| !order.contains(c))
}

/// The single characters offered for `key`: those of its reading (see
/// `single_reading`), the common ones first by frequency, then the others
/// in code-point order.
pub open spec fn single_chars_for(
    dict: Map<Seq<char>, Vec<char>>,
    common: Option<SingleCharCommonIndex>,
    key: Seq<char>,
) -> Seq<char> {
    match single_reading(dict, key) {
        Some(r) => common_first(dict[r]@, common_order(common, r)),
        None => Seq::empty(),
    }
}

pub open spec fn char_str(c: char) -> Seq<char> {
    seq![c]
}

/// The candidate list: the user's phrases, then the single characters that
/// are not already among them, cut at `LOOKUP_FULL_MAX_CANDIDATES`.
pub open spec fn candidate_list(user: Seq<Seq<char>>, singles: Seq<char>) -> Seq<Seq<char>> {
    let extra = singles.map_values(|c: char| char_str(c)).filter(|s: Seq<char>| !user.contains(s));
    prefix_of(user + extra, LOOKUP_FULL_MAX_CANDIDATES as int)
}

/// The readings the engine knows, each with its characters in ascending
/// order, and the set of those readings.
pub struct ReadingIndex {
    dict: StringHashMap<Vec<char>>,
    syllables: StringHashSet,
}

impl ReadingIndex {
    #[verifier::type_invariant]
    spec fn index_inv(self) -> bool {
        &&& forall|k: Seq<char>| #[trigger] self.syllables@.contains(k) <==> self.dict@.contains_key(k)
        &&& forall|k: Seq<char>| #[trigger] self.dict@.contains_key(k) ==> sorted_strict(self.dict@[k]@)
    }
}

/// The user's phrases, then the lexicon's phrases that are not among them.
pub open spec fn with_lexicon(user: Seq<Seq<char>>, lex: Seq<Seq<char>>) -> Seq<Seq<char>> {
    user + lex.filter(|s: Seq<char>| !user.contains(s))
}

/// `r` is what a lookup of `key` lists: the user's phrases for the key in
/// a ranking, then the lexicon's phrases for the key, then the characters of
/// the key.
pub open spec fn is_lookup_answer(
    es: Seq<EntryView>,
    blocked: Seq<Seq<char>>,
    rows: Seq<(Seq<char>, Seq<char>, u64)>,
    dict: Map<Seq<char>, Vec<char>>,
    common: Option<SingleCharCommonIndex>,
    key: Seq<char>,
    r: Seq<Seq<char>>,
) -> bool {
    exists|idx: Seq<usize>|
        is_ranking(idx, es, blocked, key) && r == candidate_list(
            with_lexicon(idx.map_values(|i: usize| es[i as int].1), lexicon_phrases(rows, key)),
            single_chars_for(dict, common, key),
        )
}

pub struct PinyinEngine {
    index: ReadingIndex,
    phrase_dir: Option<String>,
    user_lexicon: UserLexicon,
    phrase_lexicon: Vec<PhraseEntry>,
    extension_lexicon: Vec<PhraseEntry>,
    abbreviation_lexicon: Vec<PhraseEntry>,
    mixed_lexicon: Vec<PhraseEntry>,
    common_singles: Option<SingleCharCommonIndex>,
    mode_flags: u32,
    cache_epoch: u64,
    final_lookup_cache: FinalLookupCache,
    short_lookup_cache: ShortLookupCache,
}

/// Two engines that answer every lookup alike and keep the same settings:
/// the same index, user dictionary, phrase lexicon, mode flags, cache epoch
/// and phrase directory (their caches may differ).
pub open spec fn same_engine_state(a: PinyinEngine, b: PinyinEngine) -> bool {
    &&& a.dict_v() == b.dict_v()
    &&& a.lexicon() == b.lexicon()
    &&& a.phrase_rows() == b.phrase_rows()
    &&& a.common_index() == b.common_index()
    &&& a.mode() == b.mode()
    &&& a.epoch() == b.epoch()
    &&& a.dir() == b.dir()
}

impl PinyinEngine {
    /// The reading index.
    pub closed spec fn dict_v(&self) -> Map<Seq<char>, Vec<char>> {
        self.index.dict@
    }

    pub closed spec fn syllables_v(&self) -> Set<Seq<char>> {
        self.index.syllables@
    }

    pub closed spec fn mode(&self) -> u32 {
        self.mode_flags
    }

    pub closed spec fn epoch(&self) -> u64 {
        self.cache_epoch
    }

    pub closed spec fn lexicon(&self) -> UserLexicon {
        self.user_lexicon
    }

    /// The common-character list, when one is loaded.
    pub closed spec fn common_index(&self) -> Option<SingleCharCommonIndex> {
        self.common_singles
    }

    /// The rows of the base phrase lexicon.
    pub closed spec fn lexicon_base(&self) -> Seq<(Seq<char>, Seq<char>, u64)> {
        entries_view(self.phrase_lexicon@)
    }

    /// The rows of the extension lexicon (cold words: recalled by full
    /// pinyin, not by abbreviation).
    pub closed spec fn lexicon_extension(&self) -> Seq<(Seq<char>, Seq<char>, u64)> {
        entries_view(self.extension_lexicon@)
    }

    /// The base rows filed under the abbreviations of their readings.
    pub closed spec fn lexicon_abbreviations(&self) -> Seq<(Seq<char>, Seq<char>, u64)> {
        entries_view(self.abbreviation_lexicon@)
    }

    /// The base rows filed under the mixed keys of their readings.
    pub closed spec fn lexicon_mixed(&self) -> Seq<(Seq<char>, Seq<char>, u64)> {
        entries_view(self.mixed_lexicon@)
    }

    /// The lexicon rows a lookup reads: the base and extension rows, with
    /// abbreviation input on (`MODE_JIANPIN`) the base rows under their
    /// abbreviations, and with mixed pinyin on (`MODE_MIXED_PINYIN`) the base
    /// rows under their mixed keys.
    pub closed spec fn phrase_rows(&self) -> Seq<(Seq<char>, Seq<char>, u64)> {
        lookup_rows(
            self.lexicon_base(),
            self.lexicon_extension(),
            self.lexicon_abbreviations(),
            self.mode_flags & MODE_JIANPIN != 0,
            self.lexicon_mixed(),
            self.mode_flags & MODE_MIXED_PINYIN != 0,
        )
    }

    pub closed spec fn dir(&self) -> Option<Seq<char>> {
        match self.phrase_dir {
            Some(d) => Some(d@),
            None => None,
        }
    }

    /// The finished lookups the engine keeps, most recently used first.
    pub closed spec fn lookup_cache(&self) -> Seq<LookupCacheEntry> {
        self.final_lookup_cache.entries()
    }

    /// The lookups of short keys the engine keeps, most recently used first.
    pub closed spec fn short_cache(&self) -> Seq<ShortCacheEntry> {
        self.short_lookup_cache.entries()
    }

    /// The caches are well formed and every lookup in them is what a lookup
    /// of its input (or key) lists now.
    pub closed spec fn wf(&self) -> bool {
        &&& unique_entries(self.user_lexicon.entries_v())
        &&& self.final_lookup_cache.wf()
        &&& self.short_lookup_cache.wf()
        &&& forall|e: LookupCacheEntry| #[trigger] self.final_lookup_cache.entries().contains(e) ==> is_lookup_answer(
            self.user_lexicon.entries_v(),
            self.user_lexicon.blocked_v(),
            self.phrase_rows(),
            self.index.dict@,
            self.common_singles,
            compact_key(e.0.0),
            e.1,
        )
        &&& forall|e: ShortCacheEntry| #[trigger] self.short_lookup_cache.entries().contains(e) ==> is_lookup_answer(
            self.user_lexicon.entries_v(),
            self.user_lexicon.blocked_v(),
            self.phrase_rows(),
            self.index.dict@,
            self.common_singles,
            e.0.0,
            e.1,
        )
    }

    /// An engine over the built-in characters with an empty user
    /// dictionary, no phrase lexicon or common-character list, default mode
    /// flags, and `dir` recorded as its phrase lexicon directory.
    pub fn with_phrase_dir(dir: Option<&str>) -> (r: Self)
        ensures
            r.wf(),
            r.lookup_cache().len() == 0,
            r.short_cache().len() == 0,
            r.epoch() == 0,
            is_reading_index(r.dict_v(), builtin_characters_spec(), alias_rows(PRONUNCIATION_ALIASES@)),
            r.mode() == DEFAULT_MODE_FLAGS,
            r.lexicon().entries@.len() == 0,
            r.lexicon().blocked@.len() == 0,
            r.lexicon().clock == 0,
            r.lexicon_base().len() == 0,
            r.lexicon_extension().len() == 0,
            r.lexicon_abbreviations().len() == 0,
            r.lexicon_mixed().len() == 0,
            r.common_index() is None,
            r.dir() == match dir {
                Some(d) => Some(d@),
                None => None::<Seq<char>>,
            },
    {
        let rows = parse_alias_table(PRONUNCIATION_ALIASES);
        let chars = builtin_characters();
        let (dict, syllables) = build_index_with(&chars, &rows);
        let phrase_dir = match dir {
            Some(d) => Some(d.to_string()),
            None => None,
        };
        PinyinEngine {
            index: ReadingIndex { dict, syllables },
            phrase_dir,
            user_lexicon: UserLexicon::new(),
            phrase_lexicon: Vec::new(),
            extension_lexicon: Vec::new(),
            abbreviation_lexicon: Vec::new(),
            mixed_lexicon: Vec::new(),
            common_singles: None,
            mode_flags: DEFAULT_MODE_FLAGS,
            cache_epoch: 0,
            final_lookup_cache: FinalLookupCache::new(DEFAULT_FINAL_LOOKUP_CACHE_CAPACITY),
            short_lookup_cache: ShortLookupCache::new(DEFAULT_SHORT_LOOKUP_CACHE_CAPACITY),
        }
    }

    /// An engine with no phrase lexicon directory.
    pub fn new() -> (r: Self)
        ensures
            r.wf(),
            r.lookup_cache().len() == 0,
            r.short_cache().len() == 0,
            is_reading_index(r.dict_v(), builtin_characters_spec(), alias_rows(PRONUNCIATION_ALIASES@)),
            r.mode() == DEFAULT_MODE_FLAGS,
            r.lexicon().entries@.len() == 0,
            r.dir() is None,
    {
        Self::with_phrase_dir(None)
    }

    /// The user dictionary.
    pub fn user_lexicon(&self) -> (r: &UserLexicon)
        ensures
            *r == self.lexicon(),
    {
        &self.user_lexicon
    }

    /// The readings the engine knows.
    pub fn syllable_set(&self) -> (r: &StringHashSet)
        ensures
            forall|k: Seq<char>| #[trigger] r@.contains(k) <==> self.dict_v().contains_key(k),
    {
        proof {
            use_type_invariant(&self.index);
        }
        &self.index.syllables
    }

    /// The characters listed under `key`, ascending.
    pub fn chars_under(&self, key: &str) -> (r: Vec<char>)
        ensures
            self.dict_v().contains_key(key@) ==> r@ == self.dict_v()[key@]@,
            !self.dict_v().contains_key(key@) ==> r@.len() == 0,
    {
        match self.index.dict.get(key) {
            Some(v) => {
                let c = v.clone();
                assert(c@ =~= v@);
                c
            },
            None => Vec::new(),
        }
    }

    /// The reading whose characters a lookup of `key` offers.
    fn reading_for(&self, key: &Vec<char>) -> (r: Option<String>)
        ensures
            match r {
                Some(s) => single_reading(self.dict_v(), key@) == Some(s@) && self.dict_v().contains_key(s@),
                None => single_reading(self.dict_v(), key@) is None,
            },
    {
        let ks = string_of(key);
        if self.index.dict.contains_key(ks.as_str()) {
            return Some(ks);
        }
        let mut n = key.len();
        while n > 0
            invariant
                n <= key.len(),
                !self.dict_v().contains_key(key@),
                prefix_reading_len(self.dict_v(), key@, key@.len() as int) == prefix_reading_len(
                    self.dict_v(),
                    key@,
                    n as int,
                ),
            decreases n,
        {
            let p = crate::text::slice_vec(key, 0, n);
            let ps = string_of(&p);
            assert(p@ =~= key@.take(n as int));
            if self.index.dict.contains_key(ps.as_str()) {
                return Some(ps);
            }
            n -= 1;
        }
        None
    }

    fn single_chars(&self, key: &Vec<char>) -> (r: Vec<char>)
        ensures
            r@ == single_chars_for(self.dict_v(), self.common_index(), key@),
    {
        match self.reading_for(key) {
            None => Vec::new(),
            Some(rd) => {
                let chars = self.chars_under(rd.as_str());
                let order = match &self.common_singles {
                    Some(ix) => ix.pinyin_order(rd.as_str()),
                    None => Vec::new(),
                };
                assert(order@ == common_order(self.common_index(), rd@));
                common_first_vec(&chars, &order)
            },
        }
    }

    /// The candidates for a reading: the user's phrases for its key, best
    /// first, then the lexicon's phrases for it, then the characters of the
    /// key (or of its longest prefix that is a reading) that are not already
    /// listed.
    fn candidates_for_key(&self, key: &Vec<char>) -> (r: Vec<String>)
        ensures
            is_lookup_answer(
                self.lexicon().entries_v(),
                self.lexicon().blocked_v(),
                self.phrase_rows(),
                self.dict_v(),
                self.common_index(),
                key@,
                strs_view(r@),
            ),
    {
        let ks = string_of(key);
        let mine = self.user_lexicon.phrases_for(&ks);
        let ghost es = self.lexicon().entries_v();
        let ghost idx = choose|idx: Seq<usize>|
            is_ranking(idx, self.user_lexicon.entries_v(), self.user_lexicon.blocked_v(), ks@)
                && strs_view(mine@) == idx.map_values(|i: usize| self.user_lexicon.entries_v()[i as int].1);
        assert(ks@ == key@);
        assert(idx.map_values(|i: usize| self.user_lexicon.entries_v()[i as int].1) =~= idx.map_values(|i: usize| self.lexicon().entries_v()[i as int].1));
        let lex = phrases_for_key(
            &self.phrase_lexicon,
            &self.extension_lexicon,
            &self.abbreviation_lexicon,
            self.mode_flags & MODE_JIANPIN != 0,
            &self.mixed_lexicon,
            self.mode_flags & MODE_MIXED_PINYIN != 0,
            &ks,
        );
        let user = with_lexicon_vec(&mine, &lex);
        let ghost uv = strs_view(user@);
        assert(uv == with_lexicon(
            idx.map_values(|i: usize| self.lexicon().entries_v()[i as int].1),
            lexicon_phrases(self.phrase_rows(), key@),
        ));
        let singles = self.single_chars(key);
        let ghost sv = singles@;
        let ghost extra = sv.map_values(|c: char| char_str(c)).filter(|s: Seq<char>| !uv.contains(s));
        let mut out: Vec<String> = Vec::new();
        let mut i: usize = 0;
        while i < user.len() && out.len() < LOOKUP_FULL_MAX_CANDIDATES
            invariant
                i <= user.len(),
                uv == strs_view(user@),
                out.len() == i,
                i <= LOOKUP_FULL_MAX_CANDIDATES,
                strs_view(out@) =~= uv.take(i as int),
            decreases user.len() - i,
        {
            let ghost before = strs_view(out@);
            out.push(user[i].clone());
            assert(strs_view(out@) =~= before.push(uv[i as int]));
            assert(uv.take(i + 1) =~= uv.take(i as int).push(uv[i as int]));
            i += 1;
        }
        let ghost full = uv + extra;
        if out.len() == LOOKUP_FULL_MAX_CANDIDATES {
            assert(strs_view(out@) =~= full.take(LOOKUP_FULL_MAX_CANDIDATES as int));
            assert(strs_view(out@) == candidate_list(uv, single_chars_for(self.dict_v(), self.common_index(), key@)));
            return out;
        }
        assert(i == user.len());
        assert(uv.take(i as int) =~= uv);
        let mut j: usize = 0;
        while j < singles.len() && out.len() < LOOKUP_FULL_MAX_CANDIDATES
            invariant
                j <= singles.len(),
                uv == strs_view(user@),
                sv == singles@,
                extra == sv.map_values(|c: char| char_str(c)).filter(|s: Seq<char>| !uv.contains(s)),
                out.len() <= LOOKUP_FULL_MAX_CANDIDATES,
                strs_view(out@) =~= uv + sv.take(j as int).map_values(|c: char| char_str(c)).filter(
                    |s: Seq<char>| !uv.contains(s),
                ),
            decreases singles.len() - j,
        {
            let mut one: Vec<char> = Vec::new();
            one.push(singles[j]);
            let s = string_of(&one);
            assert(s@ =~= char_str(sv[j as int]));
            proof {
                let f = |c: char| char_str(c);
                let p = |s: Seq<char>| !uv.contains(s);
                assert(sv.take(j + 1).map_values(f) =~= sv.take(j as int).map_values(f).push(f(sv[j as int])));
                sv.take(j as int).map_values(f).lemma_filter_push(f(sv[j as int]), p);
            }
            if !contains_string(&user, &s) {
                let ghost before = strs_view(out@);
                out.push(s);
                assert(strs_view(out@) =~= before.push(char_str(sv[j as int])));
            }
            j += 1;
        }
        proof {
            if j == singles.len() {
                assert(sv.take(j as int) =~= sv);
                assert(strs_view(out@) =~= full);
                assert(full.len() <= LOOKUP_FULL_MAX_CANDIDATES);
            } else {
                let f = |c: char| char_str(c);
                let p = |s: Seq<char>| !uv.contains(s);
                let part = sv.take(j as int).map_values(f).filter(p);
                assert(sv =~= sv.take(j as int) + sv.skip(j as int));
                assert(sv.map_values(f) =~= sv.take(j as int).map_values(f) + sv.skip(j as int).map_values(f));
                Seq::filter_distributes_over_add(sv.take(j as int).map_values(f), sv.skip(j as int).map_values(f), p);
                assert(full =~= (uv + part) + sv.skip(j as int).map_values(f).filter(p));
                assert(full.take(LOOKUP_FULL_MAX_CANDIDATES as int) =~= strs_view(out@));
            }
        }
        out
    }

    /// The candidates shown for a reading, best first. A lookup is answered
    /// from the short cache (keyed by the compact key, the mode flags, the
    /// user clock and the cache epoch) when its key is short and cached
    /// there, else from the final cache (keyed by the input, the mode flags
    /// and the cache epoch) when the input is cacheable and cached there;
    /// a computed lookup that finds candidates goes into each cache it is
    /// cacheable in.
    pub fn lookup_tsf_candidates(&mut self, pinyin_buffer: &str) -> (r: Vec<String>)
        requires
            old(self).wf(),
        ensures
            final(self).wf(),
            same_engine_state(*final(self), *old(self)),
            is_lookup_answer(
                old(self).lexicon().entries_v(),
                old(self).lexicon().blocked_v(),
                old(self).phrase_rows(),
                old(self).dict_v(),
                old(self).common_index(),
                compact_key(pinyin_buffer@),
                strs_view(r@),
            ),
            ({
                let key = compact_key(pinyin_buffer@);
                let short_key = (key, old(self).mode(), old(self).lexicon().clock, old(self).epoch());
                let final_key = (pinyin_buffer@, old(self).mode(), old(self).epoch());
                let short_ok = short_cacheable(pinyin_buffer@, key, is_shortcut_key(key));
                let final_ok = final_cacheable(pinyin_buffer@, is_shortcut_key(key));
                let short_hit = short_ok && lru_value(old(self).short_cache(), short_key) is Some;
                let final_hit = !short_hit && final_ok && lru_value(old(self).lookup_cache(), final_key) is Some;
                &&& short_ok && r.len() > 0 && !final_hit ==> lru_value(final(self).short_cache(), short_key) == Some(
                    strs_view(r@),
                )
                &&& final_ok && r.len() > 0 && !short_hit ==> lru_value(final(self).lookup_cache(), final_key) == Some(
                    strs_view(r@),
                )
            }),
    {
        let v = chars_of(pinyin_buffer);
        let key = compact_key_vec(&v);
        let key_s = string_of(&key);
        let shortcut = is_direct_input_shortcut_key(&key);
        let short_ok = is_short_lookup_cacheable(pinyin_buffer, key_s.as_str(), shortcut);
        let sk = short_lookup_cache_key(key_s.as_str(), self.mode_flags, self.user_lexicon.clock, self.cache_epoch);
        let ghost skv = short_key_view(sk);
        if short_ok {
            let hit = self.short_lookup_cache.get(&sk);
            if let Some(found) = hit {
                proof {
                    assert(old(self).short_lookup_cache.entries().contains((skv, strs_view(found@))));
                    lemma_lru_value_after_touch(old(self).short_lookup_cache.entries(), skv);
                }
                return found;
            }
        }
        let cacheable = is_final_lookup_cacheable(pinyin_buffer, shortcut);
        let ck = final_lookup_cache_key(pinyin_buffer, self.mode_flags, self.cache_epoch);
        let ghost kv = final_key_view(ck);
        if cacheable {
            let hit = self.final_lookup_cache.get(&ck);
            if let Some(found) = hit {
                proof {
                    assert(old(self).final_lookup_cache.entries().contains((kv, strs_view(found@))));
                    lemma_lru_value_after_touch(old(self).final_lookup_cache.entries(), kv);
                }
                return found;
            }
        }
        let r = self.candidates_for_key(&key);
        if short_ok {
            let copy = clone_strings(&r);
            assert(copy@.len() == strs_view(copy@).len());
            self.short_lookup_cache.insert(sk, copy);
        }
        if cacheable {
            let copy = clone_strings(&r);
            assert(copy@.len() == strs_view(copy@).len());
            self.final_lookup_cache.insert(ck, copy);
        }
        r
    }

    /// The first page of candidates for a reading.
    pub fn lookup_first_page(&mut self, pinyin_buffer: &str) -> (r: Vec<String>)
        requires
            old(self).wf(),
        ensures
            final(self).wf(),
            same_engine_state(*final(self), *old(self)),
            exists|all: Seq<Seq<char>>|
                is_lookup_answer(
                    old(self).lexicon().entries_v(),
                    old(self).lexicon().blocked_v(),
                    old(self).phrase_rows(),
                    old(self).dict_v(),
                    old(self).common_index(),
                    compact_key(pinyin_buffer@),
                    all,
                ) && strs_view(r@) == prefix_of(all, TSF_PAGE_SIZE as int),
    {
        let mut all = self.lookup_tsf_candidates(pinyin_buffer);
        let ghost before = all@;
        if all.len() > TSF_PAGE_SIZE {
            all.truncate(TSF_PAGE_SIZE);
            assert(all@ =~= before.take(TSF_PAGE_SIZE as int));
        } else {
        }
        assert(strs_view(all@) =~= prefix_of(strs_view(before), TSF_PAGE_SIZE as int));
        all
    }

    /// Starts a new cache epoch and forgets the cached lookups; done whenever
    /// the user dictionary, the mode flags or the phrase directory change.
    fn invalidate_lookups(&mut self)
        requires
            old(self).wf(),
        ensures
            final(self).wf(),
            final(self).lookup_cache().len() == 0,
            final(self).short_cache().len() == 0,
            final(self).epoch() == old(self).epoch().wrapping_add(1),
            final(self).lexicon() == old(self).lexicon(),
            final(self).dict_v() == old(self).dict_v(),
            final(self).phrase_rows() == old(self).phrase_rows(),
            final(self).lexicon_base() == old(self).lexicon_base(),
            final(self).lexicon_extension() == old(self).lexicon_extension(),
            final(self).lexicon_abbreviations() == old(self).lexicon_abbreviations(),
            final(self).lexicon_mixed() == old(self).lexicon_mixed(),
            final(self).common_index() == old(self).common_index(),
            final(self).mode() == old(self).mode(),
            final(self).dir() == old(self).dir(),
    {
        self.cache_epoch = self.cache_epoch.wrapping_add(1);
        self.final_lookup_cache.clear();
        self.short_lookup_cache.clear();
    }
}

/// `chars` with those that `order` ranks first (see `common_first`).
fn common_first_vec(chars: &Vec<char>, order: &Vec<char>) -> (r: Vec<char>)
    ensures
        r@ == common_first(chars@, order@),
{
    let ghost fa = |c: char| chars@.contains(c);
    let ghost fb = |c: char| !order@.contains(c);
    let mut out: Vec<char> = Vec::new();
    let mut i: usize = 0;
    while i < order.len()
        invariant
            i <= order.len(),
            fa == (|c: char| chars@.contains(c)),
            out@ == order@.take(i as int).filter(fa),
        decreases order.len() - i,
    {
        proof {
            assert(order@.take(i + 1) =~= order@.take(i as int).push(order@[i as int]));
            order@.take(i as int).lemma_filter_push(order@[i as int], fa);
        }
        if crate::text::contains_char(chars, order[i]) {
            out.push(order[i]);
        }
        i += 1;
    }
    assert(order@.take(order.len() as int) =~= order@);
    let ghost head = out@;
    let mut j: usize = 0;
    while j < chars.len()
        invariant
            j <= chars.len(),
            fb == (|c: char| !order@.contains(c)),
            out@ == head + chars@.take(j as int).filter(fb),
        decreases chars.len() - j,
    {
        proof {
            assert(chars@.take(j + 1) =~= chars@.take(j as int).push(chars@[j as int]));
            chars@.take(j as int).lemma_filter_push(chars@[j as int], fb);
        }
        if !crate::text::contains_char(order, chars[j]) {
            out.push(chars[j]);
            assert(out@ =~= head + chars@.take(j + 1).filter(fb));
        }
        j += 1;
    }
    assert(chars@.take(chars.len() as int) =~= chars@);
    out
}

/// The user's phrases, then those of `lex` that are not among them.
fn with_lexicon_vec(user: &Vec<String>, lex: &Vec<String>) -> (r: Vec<String>)
    ensures
        strs_view(r@) == with_lexicon(strs_view(user@), strs_view(lex@)),
{
    let ghost uv = strs_view(user@);
    let ghost lv = strs_view(lex@);
    let ghost keep = |s: Seq<char>| !uv.contains(s);
    let mut out = clone_strings(user);
    let mut i: usize = 0;
    while i < lex.len()
        invariant
            i <= lex.len(),
            uv == strs_view(user@),
            lv == strs_view(lex@),
            keep == (|s: Seq<char>| !uv.contains(s)),
            strs_view(out@) == uv + lv.take(i as int).filter(keep),
        decreases lex.len() - i,
    {
        proof {
            assert(lv.take(i + 1) =~= lv.take(i as int).push(lv[i as int]));
            lv.take(i as int).lemma_filter_push(lv[i as int], keep);
        }
        assert(lex@[i as int]@ == lv[i as int]);
        if !contains_string(user, &lex[i]) {
            let ghost before = strs_view(out@);
            out.push(lex[i].clone());
            assert(strs_view(out@) =~= before.push(lv[i as int]));
        }
        i += 1;
    }
    assert(lv.take(lex.len() as int) =~= lv);
    out
}

/// The built-in characters as a sequence.
pub open spec fn builtin_characters_spec() -> Seq<char> {
    Seq::new(
        (BUILTIN_LAST_CODE_POINT - BUILTIN_FIRST_CODE_POINT + 1) as nat,
        |i: int| (BUILTIN_FIRST_CODE_POINT + i) as char,
    )
}

/// How readily the engine learns from commits.
pub enum LearningSensitivity {
    Conservative,
    Standard,
    Aggressive,
}

/// What kind of commit a learned phrase came from.
pub enum CommitSource {
    Direct,
    Weak,
    Composed,
    Mixed,
}

/// The learning strength of one commit.
pub struct LearnCommitProfile {
    pub exact_delta: u64,
    pub composed_observe_threshold: u64,
    pub source: CommitSource,
}


pub open spec fn sensitivity_of(mode: u32) -> LearningSensitivity {
    if mode & MODE_LEARNING_AGGRESSIVE != 0 {
        LearningSensitivity::Aggressive
    } else if mode & MODE_LEARNING_CONSERVATIVE != 0 {
        LearningSensitivity::Conservative
    } else {
        LearningSensitivity::Standard
    }
}

/// Weight of a learned single character.
pub open spec fn single_char_delta(mode: u32, flags: u32) -> u64 {
    if flags & LEARN_FLAG_WEAK != 0 {
        1
    } else {
        match sensitivity_of(mode) {
            LearningSensitivity::Conservative => 1,
            LearningSensitivity::Standard => 2,
            LearningSensitivity::Aggressive => 3,
        }
    }
}

/// The learning strength of a commit of a phrase of `chars` characters:
/// its weight, how often a composed phrase must be observed before it is
/// learned, and its source.
pub open spec fn commit_profile(
    mode: u32,
    flags: u32,
    chars: nat,
    auto_novel: bool,
    full_count: Option<nat>,
) -> (u64, u64, CommitSource) {
    let weak = flags & LEARN_FLAG_WEAK != 0;
    let composed = flags & LEARN_FLAG_COMPOSED_PHRASE != 0;
    let full_exact = match full_count {
        Some(n) => n == chars && chars >= 2,
        None => false,
    };
    let source = if weak {
        CommitSource::Weak
    } else if composed {
        CommitSource::Composed
    } else {
        CommitSource::Direct
    };
    let d0: u64 = if weak || composed { 1 } else { 2 };
    let d1: u64 = if !weak && full_exact && chars >= 4 { (d0 + 1) as u64 } else { d0 };
    let d2: u64 = if auto_novel && 4 <= chars <= AUTO_NOVEL_MAX_CHARS { (d1 + 1) as u64 } else { d1 };
    let t0: u64 = if chars <= 2 { 3 } else { 2 };
    let t1: u64 = if auto_novel && chars >= 4 {
        1
    } else if full_exact && chars >= 4 {
        2
    } else {
        t0
    };
    match sensitivity_of(mode) {
        LearningSensitivity::Aggressive => if composed {
            ((d2 + 1) as u64, 1, source)
        } else {
            (d2, t1, source)
        },
        LearningSensitivity::Conservative => if composed {
            (d2, (t1 + 1) as u64, source)
        } else {
            (d2, t1, source)
        },
        LearningSensitivity::Standard => if composed {
            (d2, 1, source)
        } else {
            (d2, t1, source)
        },
    }
}



/// The learning state of a user dictionary as plain values: its entries,
/// its observations, its clock and its context history.
pub type LexState = (Seq<EntryView>, Seq<EntryView>, u64, Seq<Seq<char>>);

pub open spec fn lex_state(l: UserLexicon) -> LexState {
    (l.entries_v(), l.observations_v(), l.clock, l.context_v())
}

/// How many times `key -> phrase` has been observed after one more
/// observation.
pub open spec fn observed_count(obs: Seq<EntryView>, key: Seq<char>, phrase: Seq<char>) -> u64 {
    match entry_index(obs, key, phrase) {
        Some(i) => sat_add(obs[i].2, 1),
        None => 1,
    }
}

/// The learning state after committing `phrase` for `reading`:
/// - nothing is learned in traditional-output mode;
/// - a commit flagged not to be learned only clears the context history;
/// - nothing is learned for an empty key or phrase (the phrase taken without
///   surrounding whitespace) or for a command key;
/// - a learnable single character is learned with its own weight;
/// - a phrase that is not learnable is not learned;
/// - a composed phrase must have two to eight characters, is observed, and
///   is learned only once observed often enough (or when it yields
///   sub-phrases);
/// - a learned phrase is stamped, becomes the latest commit, and is then
///   learned under its extra readings.
pub open spec fn commit_state(
    st: LexState,
    dict: Map<Seq<char>, Vec<char>>,
    mode: u32,
    blocked: Seq<Seq<char>>,
    reading: Seq<char>,
    phrase: Seq<char>,
    flags: u32,
) -> LexState {
    let p = trim_seq(phrase);
    let key = compact_key(reading);
    if mode & MODE_TRADITIONAL_OUTPUT != 0 {
        st
    } else if flags & LEARN_FLAG_NO_LEARN != 0 {
        (st.0, st.1, st.2, Seq::empty())
    } else if key.len() == 0 || p.len() == 0 || is_shortcut_key(key) {
        st
    } else if learnable_single_char(p) {
        let now = sat_add(st.2, 1);
        (learned(st.0, key, p, single_char_delta(mode, flags), now), st.1, now, st.3)
    } else if !learnable_phrase(p) {
        st
    } else {
        let novel = auto_novel(dict, reading, key, p, blocked);
        let syls = full_syllables(dict, key);
        let prof = commit_profile(
            mode,
            flags,
            p.len(),
            novel is Some,
            match syls {
                Some(s) => Some(s.len()),
                None => None,
            },
        );
        let composed = flags & LEARN_FLAG_COMPOSED_PHRASE != 0;
        if composed && !(2 <= p.len() <= AUTO_NOVEL_MAX_CHARS) {
            st
        } else {
            let obs = if composed {
                learned(st.1, key, p, 1, st.2)
            } else {
                st.1
            };
            if composed && observed_count(st.1, key, p) < prof.1 && novel is None {
                (st.0, obs, st.2, st.3)
            } else {
                let now = sat_add(st.2, 1);
                let after = apply_learns(
                    learned(st.0, key, p, prof.0, now),
                    now,
                    extra_learn_ops(key, p, flags & LEARN_FLAG_WEAK != 0, novel, syls),
                );
                (after.0, obs, after.1, st.3.insert(0, p))
            }
        }
    }
}

fn single_user_char_delta(mode: u32, flags: u32) -> (r: u64)
    ensures
        r == single_char_delta(mode, flags),
{
    if flags & LEARN_FLAG_WEAK != 0 {
        return 1;
    }
    if mode & MODE_LEARNING_AGGRESSIVE != 0 {
        3
    } else if mode & MODE_LEARNING_CONSERVATIVE != 0 {
        1
    } else {
        2
    }
}

fn learn_commit_profile(
    mode: u32,
    flags: u32,
    chars: usize,
    auto_novel: bool,
    full_count: Option<usize>,
) -> (r: LearnCommitProfile)
    ensures
        (r.exact_delta, r.composed_observe_threshold, r.source) == commit_profile(
            mode,
            flags,
            chars as nat,
            auto_novel,
            match full_count {
                Some(n) => Some(n as nat),
                None => None,
            },
        ),
{
    let weak = flags & LEARN_FLAG_WEAK != 0;
    let composed = flags & LEARN_FLAG_COMPOSED_PHRASE != 0;
    let full_exact = match full_count {
        Some(n) => n == chars && chars >= 2,
        None => false,
    };
    let source = if weak {
        CommitSource::Weak
    } else if composed {
        CommitSource::Composed
    } else {
        CommitSource::Direct
    };
    let mut exact_delta: u64 = if weak || composed {
        1
    } else {
        2
    };
    if !weak && full_exact && chars >= 4 {
        exact_delta += 1;
    }
    if auto_novel && 4 <= chars && chars <= AUTO_NOVEL_MAX_CHARS {
        exact_delta += 1;
    }
    let mut threshold: u64 = if chars <= 2 {
        3
    } else {
        2
    };
    if auto_novel && chars >= 4 {
        threshold = 1;
    } else if full_exact && chars >= 4 {
        threshold = 2;
    }
    if mode & MODE_LEARNING_AGGRESSIVE != 0 {
        if composed {
            threshold = 1;
            exact_delta += 1;
        }
    } else if mode & MODE_LEARNING_CONSERVATIVE != 0 {
        if composed {
            threshold = threshold + 1;
        }
    } else {
        if composed {
            threshold = 1;
        }
    }
    LearnCommitProfile { exact_delta, composed_observe_threshold: threshold, source }
}

impl PinyinEngine {
    /// Learns from a commit of `phrase` typed as `reading`.
    pub fn learn_commit(&mut self, reading: &str, phrase: &str) -> (r: Result<(), String>)
        requires
            old(self).wf(),
        ensures
            r is Ok,
            final(self).wf(),
            final(self).epoch() == if commit_updates_lexicon(old(self).mode(), reading@, phrase@, 0) {
                old(self).epoch().wrapping_add(1)
            } else {
                old(self).epoch()
            },
            final(self).dict_v() == old(self).dict_v(),
            final(self).phrase_rows() == old(self).phrase_rows(),
            final(self).common_index() == old(self).common_index(),
            final(self).mode() == old(self).mode(),
            final(self).dir() == old(self).dir(),
            final(self).lexicon().blocked == old(self).lexicon().blocked,
            final(self).lexicon().selection == old(self).lexicon().selection,
            final(self).lexicon().weak_unselected == old(self).lexicon().weak_unselected,
            lex_state(final(self).lexicon()) == commit_state(
                lex_state(old(self).lexicon()),
                old(self).dict_v(),
                old(self).mode(),
                old(self).lexicon().blocked_v(),
                reading@,
                phrase@,
                0,
            ),
    {
        self.learn_commit_with_flags(reading, phrase, 0)
    }

    /// Learns from a commit of `phrase` typed as `reading`, with the
    /// `LEARN_FLAG_*` bits of `flags`.
    pub fn learn_commit_with_flags(&mut self, reading: &str, phrase: &str, flags: u32) -> (r: Result<
        (),
        String,
    >)
        requires
            old(self).wf(),
        ensures
            r is Ok,
            final(self).wf(),
            old(self).mode() & MODE_TRADITIONAL_OUTPUT != 0 ==> *final(self) == *old(self),
            final(self).dict_v() == old(self).dict_v(),
            final(self).phrase_rows() == old(self).phrase_rows(),
            final(self).common_index() == old(self).common_index(),
            final(self).mode() == old(self).mode(),
            final(self).dir() == old(self).dir(),
            final(self).epoch() == if commit_updates_lexicon(old(self).mode(), reading@, phrase@, flags) {
                old(self).epoch().wrapping_add(1)
            } else {
                old(self).epoch()
            },
            final(self).lexicon().blocked == old(self).lexicon().blocked,
            final(self).lexicon().selection == old(self).lexicon().selection,
            final(self).lexicon().weak_unselected == old(self).lexicon().weak_unselected,
            final(self).lexicon().corrections == old(self).lexicon().corrections,
            lex_state(final(self).lexicon()) == commit_state(
                lex_state(old(self).lexicon()),
                old(self).dict_v(),
                old(self).mode(),
                old(self).lexicon().blocked_v(),
                reading@,
                phrase@,
                flags,
            ),
    {
        let mode = self.mode_flags;
        if mode & MODE_TRADITIONAL_OUTPUT != 0 {
            return Ok(());
        }
        if flags & LEARN_FLAG_NO_LEARN != 0 {
            self.user_lexicon.clear_context_history();
            assert(self.lexicon().context_v() =~= Seq::<Seq<char>>::empty());
            return Ok(());
        }
        let pv = chars_of(phrase);
        let pt = trim_vec(&pv);
        let rv = chars_of(reading);
        let key = compact_key_vec(&rv);
        if key.len() == 0 || pt.len() == 0 {
            return Ok(());
        }
        if is_direct_input_shortcut_key(&key) {
            return Ok(());
        }
        let key_s = string_of(&key);
        let p_s = string_of(&pt);
        if learnable_single_chars(&pt) {
            let d = single_user_char_delta(mode, flags);
            self.invalidate_lookups();
            let ghost before = self.user_lexicon.entries_v();
            self.user_lexicon.learn(&key_s, &p_s, d, false);
            proof {
                lemma_learned_unique(before, key_s@, p_s@, d, self.user_lexicon.clock);
            }
            return Ok(());
        }
        if !learnable_chars(&pt) {
            return Ok(());
        }
        let novel = auto_novel_phrase_parts(&self.index.dict, &rv, &key, &pt, &self.user_lexicon.blocked);
        let syls = full_pinyin_syllables(&self.index.dict, &key);
        let full_count = match &syls {
            Some(v) => Some(v.len()),
            None => None,
        };
        let prof = learn_commit_profile(mode, flags, pt.len(), novel.is_some(), full_count);
        let composed = flags & LEARN_FLAG_COMPOSED_PHRASE != 0;
        if composed && (pt.len() < 2 || pt.len() > AUTO_NOVEL_MAX_CHARS) {
            return Ok(());
        }
        self.invalidate_lookups();
        if composed {
            let observed = self.user_lexicon.observe_input(&key_s, &p_s);
            if observed < prof.composed_observe_threshold && novel.is_none() {
                return Ok(());
            }
        }
        let ghost before = self.user_lexicon.entries_v();
        self.user_lexicon.learn(&key_s, &p_s, prof.exact_delta, true);
        proof {
            lemma_learned_unique(before, key_s@, p_s@, prof.exact_delta, self.user_lexicon.clock);
        }
        let ops = extra_learn_ops_vec(&key, &p_s, flags & LEARN_FLAG_WEAK != 0, &novel, &syls);
        let ghost mid = self.user_lexicon.entries_v();
        let ghost mid_clock = self.user_lexicon.clock;
        self.user_lexicon.learn_all(&ops);
        proof {
            lemma_apply_learns_unique(mid, mid_clock, crate::user_lexicon::ops_view(ops@));
        }
        Ok(())
    }
}

/// A commit that changes the user dictionary (and so starts a new cache
/// epoch): outside traditional-output mode, not flagged to be skipped, with a
/// non-empty key that is not a command and a learnable single character, or
/// a learnable phrase (taken without surrounding whitespace) that, when
/// composed, has two to eight characters.
pub open spec fn commit_updates_lexicon(mode: u32, reading: Seq<char>, phrase: Seq<char>, flags: u32) -> bool {
    let p = trim_seq(phrase);
    let key = compact_key(reading);
    &&& mode & MODE_TRADITIONAL_OUTPUT == 0
    &&& flags & LEARN_FLAG_NO_LEARN == 0
    &&& key.len() > 0
    &&& p.len() > 0
    &&& !is_shortcut_key(key)
    &&& (learnable_single_char(p) || (learnable_phrase(p) && (flags & LEARN_FLAG_COMPOSED_PHRASE == 0 || 2
        <= p.len() <= AUTO_NOVEL_MAX_CHARS)))
}

/// A commit that is learned: outside traditional-output mode, with a
/// non-empty key that is not a command, and a learnable phrase or single
/// character (taken without surrounding whitespace); not flagged to be
/// skipped; and, when composed, of two to eight characters outside the
/// conservative learning mode, or a single character.
pub open spec fn commit_is_learned(mode: u32, reading: Seq<char>, phrase: Seq<char>, flags: u32) -> bool {
    let p = trim_seq(phrase);
    let key = compact_key(reading);
    &&& mode & MODE_TRADITIONAL_OUTPUT == 0
    &&& flags & LEARN_FLAG_NO_LEARN == 0
    &&& key.len() > 0
    &&& p.len() > 0
    &&& !is_shortcut_key(key)
    &&& (learnable_single_char(p) || learnable_phrase(p))
    &&& (flags & LEARN_FLAG_COMPOSED_PHRASE != 0 ==> learnable_single_char(p) || (mode
        & MODE_LEARNING_CONSERVATIVE == 0 && 2 <= p.len() <= AUTO_NOVEL_MAX_CHARS))
}

/// A learned commit leaves its phrase associated with its reading's key.
pub proof fn lemma_commit_keeps_phrase(
    st: LexState,
    dict: Map<Seq<char>, Vec<char>>,
    mode: u32,
    blocked: Seq<Seq<char>>,
    reading: Seq<char>,
    phrase: Seq<char>,
    flags: u32,
)
    requires
        commit_is_learned(mode, reading, phrase, flags),
    ensures
        has_entry(
            commit_state(st, dict, mode, blocked, reading, phrase, flags).0,
            compact_key(reading),
            trim_seq(phrase),
        ),
{
    let p = trim_seq(phrase);
    let key = compact_key(reading);
    if learnable_single_char(p) {
        lemma_learned_keeps(st.0, key, p, single_char_delta(mode, flags), sat_add(st.2, 1), key, p);
    } else {
        let novel = auto_novel(dict, reading, key, p, blocked);
        let syls = full_syllables(dict, key);
        let prof = commit_profile(
            mode,
            flags,
            p.len(),
            novel is Some,
            match syls {
                Some(s) => Some(s.len()),
                None => None,
            },
        );
        let now = sat_add(st.2, 1);
        assert(observed_count(st.1, key, p) >= 1);
        if flags & LEARN_FLAG_COMPOSED_PHRASE != 0 {
            assert(prof.1 == 1);
        }
        lemma_learned_keeps(st.0, key, p, prof.0, now, key, p);
        lemma_apply_learns_keeps(
            learned(st.0, key, p, prof.0, now),
            now,
            extra_learn_ops(key, p, flags & LEARN_FLAG_WEAK != 0, novel, syls),
            key,
            p,
        );
    }
}

/// A phrase associated with a key and not blocked is among the candidates
/// of any ranking for that key, as long as the user has no more phrases for
/// the key than one lookup hands out.
pub proof fn lemma_entry_is_candidate(
    es: Seq<EntryView>,
    blocked: Seq<Seq<char>>,
    key: Seq<char>,
    phrase: Seq<char>,
    idx: Seq<usize>,
    lex: Seq<Seq<char>>,
    singles: Seq<char>,
)
    requires
        has_entry(es, key, phrase),
        !blocked.contains(phrase),
        is_ranking(idx, es, blocked, key),
        idx.len() <= LOOKUP_FULL_MAX_CANDIDATES,
    ensures
        candidate_list(with_lexicon(idx.map_values(|i: usize| es[i as int].1), lex), singles).contains(phrase),
{
    let j = choose|j: int| 0 <= j < es.len() && (#[trigger] es[j]).0 == key && es[j].1 == phrase;
    assert(offered(es, blocked, key, j));
    let i = choose|i: int| 0 <= i < idx.len() && #[trigger] idx[i] as int == j;
    let mine = idx.map_values(|i: usize| es[i as int].1);
    assert(mine[i] == phrase);
    let user = with_lexicon(mine, lex);
    assert(user[i] == phrase);
    let extra = singles.map_values(|c: char| char_str(c)).filter(|s: Seq<char>| !user.contains(s));
    let all = user + extra;
    assert(all[i] == phrase);
    let lst = candidate_list(user, singles);
    if all.len() > LOOKUP_FULL_MAX_CANDIDATES {
        assert(lst[i] == phrase);
    } else {
        assert(lst[i] == phrase);
    }
}

/// A phrase committed for a reading, learned and not blocked, is among the
/// candidates that the next lookup of that reading lists, as long as the
/// user has no more phrases for its key than one lookup hands out.
pub proof fn lemma_committed_phrase_is_candidate(
    lex: UserLexicon,
    dict: Map<Seq<char>, Vec<char>>,
    mode: u32,
    reading: Seq<char>,
    phrase: Seq<char>,
    flags: u32,
    idx: Seq<usize>,
    rows: Seq<(Seq<char>, Seq<char>, u64)>,
    common: Option<SingleCharCommonIndex>,
)
    requires
        commit_is_learned(mode, reading, phrase, flags),
        !lex.blocked_v().contains(trim_seq(phrase)),
        is_ranking(
            idx,
            commit_state(lex_state(lex), dict, mode, lex.blocked_v(), reading, phrase, flags).0,
            lex.blocked_v(),
            compact_key(reading),
        ),
        idx.len() <= LOOKUP_FULL_MAX_CANDIDATES,
    ensures
        candidate_list(
            with_lexicon(
                idx.map_values(
                    |i: usize|
                        commit_state(lex_state(lex), dict, mode, lex.blocked_v(), reading, phrase, flags).0[i as int].1,
                ),
                lexicon_phrases(rows, compact_key(reading)),
            ),
            single_chars_for(dict, common, compact_key(reading)),
        ).contains(trim_seq(phrase)),
{
    let es = commit_state(lex_state(lex), dict, mode, lex.blocked_v(), reading, phrase, flags).0;
    lemma_commit_keeps_phrase(lex_state(lex), dict, mode, lex.blocked_v(), reading, phrase, flags);
    lemma_entry_is_candidate(
        es,
        lex.blocked_v(),
        compact_key(reading),
        trim_seq(phrase),
        idx,
        lexicon_phrases(rows, compact_key(reading)),
        single_chars_for(dict, common, compact_key(reading)),
    );
    assert(idx.map_values(|i: usize| es[i as int].1) =~= idx.map_values(
        |i: usize|
            commit_state(lex_state(lex), dict, mode, lex.blocked_v(), reading, phrase, flags).0[i as int].1,
    ));
}

/// A lookup lists one thing only: two lists that both answer a lookup of
/// the same key over the same user dictionary and index are equal.
pub proof fn lemma_lookup_answer_unique(
    es: Seq<EntryView>,
    blocked: Seq<Seq<char>>,
    rows: Seq<(Seq<char>, Seq<char>, u64)>,
    dict: Map<Seq<char>, Vec<char>>,
    common: Option<SingleCharCommonIndex>,
    key: Seq<char>,
    a: Seq<Seq<char>>,
    b: Seq<Seq<char>>,
)
    requires
        is_lookup_answer(es, blocked, rows, dict, common, key, a),
        is_lookup_answer(es, blocked, rows, dict, common, key, b),
    ensures
        a == b,
{
    let ia = choose|idx: Seq<usize>|
        is_ranking(idx, es, blocked, key) && a == candidate_list(
            with_lexicon(idx.map_values(|i: usize| es[i as int].1), lexicon_phrases(rows, key)),
            single_chars_for(dict, common, key),
        );
    let ib = choose|idx: Seq<usize>|
        is_ranking(idx, es, blocked, key) && b == candidate_list(
            with_lexicon(idx.map_values(|i: usize| es[i as int].1), lexicon_phrases(rows, key)),
            single_chars_for(dict, common, key),
        );
    lemma_ranking_unique(ia, ib, es, blocked, key);
}

/// A lookup answered from the cache lists what a cold lookup of the same
/// input lists now: every lookup that a well-formed engine keeps equals
/// the answer computed from its user dictionary and index.
pub proof fn lemma_cached_lookup_is_cold_lookup(e: PinyinEngine, entry: LookupCacheEntry, cold: Seq<Seq<char>>)
    requires
        e.wf(),
        e.lookup_cache().contains(entry),
        is_lookup_answer(
            e.lexicon().entries_v(),
            e.lexicon().blocked_v(),
            e.phrase_rows(),
            e.dict_v(),
            e.common_index(),
            compact_key(entry.0.0),
            cold,
        ),
    ensures
        entry.1 == cold,
{
    assert(e.final_lookup_cache.entries().contains(entry));
    lemma_lookup_answer_unique(
        e.lexicon().entries_v(),
        e.lexicon().blocked_v(),
        e.phrase_rows(),
        e.dict_v(),
        e.common_index(),
        compact_key(entry.0.0),
        entry.1,
        cold,
    );
}

/// A lookup answered from the short cache lists what a cold lookup of the
/// same key lists now.
pub proof fn lemma_short_cached_lookup_is_cold_lookup(e: PinyinEngine, entry: ShortCacheEntry, cold: Seq<Seq<char>>)
    requires
        e.wf(),
        e.short_cache().contains(entry),
        is_lookup_answer(e.lexicon().entries_v(), e.lexicon().blocked_v(), e.phrase_rows(), e.dict_v(), e.common_index(), entry.0.0, cold),
    ensures
        entry.1 == cold,
{
    assert(e.short_lookup_cache.entries().contains(entry));
    lemma_lookup_answer_unique(
        e.lexicon().entries_v(),
        e.lexicon().blocked_v(),
        e.phrase_rows(),
        e.dict_v(),
        e.common_index(),
        entry.0.0,
        entry.1,
        cold,
    );
}

/// The selection-feedback score a removed user phrase gets under its
/// reading, so that it does not come back to the front at once.
pub const REMOVED_PHRASE_FEEDBACK_DELTA: i64 = -8;

/// Background clipboard capture is on: requested and not disabled.
pub open spec fn clipboard_background_enabled(flags: u32) -> bool {
    flags & MODE_CLIPBOARD_BACKGROUND != 0 && flags & MODE_CLIPBOARD_DISABLED == 0
}

pub fn clipboard_background_enabled_for_mode_flags(flags: u32) -> (r: bool)
    ensures
        r == clipboard_background_enabled(flags),
{
    flags & MODE_CLIPBOARD_BACKGROUND != 0 && flags & MODE_CLIPBOARD_DISABLED == 0
}

impl PinyinEngine {
    /// Forgets the commits that preceded the current input.
    pub fn reset_learning_context(&mut self)
        requires
            old(self).wf(),
        ensures
            final(self).wf(),
            final(self).lookup_cache().len() == 0,
            final(self).short_cache().len() == 0,
            final(self).epoch() == old(self).epoch().wrapping_add(1),
            final(self).lexicon().context@.len() == 0,
            final(self).lexicon().entries == old(self).lexicon().entries,
            final(self).lexicon().observations == old(self).lexicon().observations,
            final(self).lexicon().blocked == old(self).lexicon().blocked,
            final(self).lexicon().selection == old(self).lexicon().selection,
            final(self).lexicon().weak_unselected == old(self).lexicon().weak_unselected,
            final(self).lexicon().corrections == old(self).lexicon().corrections,
            final(self).lexicon().clock == old(self).lexicon().clock,
            final(self).dict_v() == old(self).dict_v(),
            final(self).phrase_rows() == old(self).phrase_rows(),
            final(self).common_index() == old(self).common_index(),
            final(self).mode() == old(self).mode(),
            final(self).dir() == old(self).dir(),
    {
        self.invalidate_lookups();
        self.user_lexicon.clear_context_history();
    }

    /// Remembers that the user corrected `raw` to `corrected`; nothing is
    /// remembered in traditional-output mode or when either side is empty
    /// once surrounding whitespace is removed.
    pub fn learn_correction(&mut self, raw: &str, corrected: &str) -> (r: Result<(), String>)
        requires
            old(self).wf(),
        ensures
            r is Ok,
            final(self).wf(),
            final(self).epoch() == if old(self).mode() & MODE_TRADITIONAL_OUTPUT != 0 || trim_seq(raw@).len() == 0
                || trim_seq(corrected@).len() == 0 {
                old(self).epoch()
            } else {
                old(self).epoch().wrapping_add(1)
            },
            (old(self).mode() & MODE_TRADITIONAL_OUTPUT != 0 || trim_seq(raw@).len() == 0 || trim_seq(
                corrected@,
            ).len() == 0) ==> final(self).lexicon() == old(self).lexicon(),
            !(old(self).mode() & MODE_TRADITIONAL_OUTPUT != 0 || trim_seq(raw@).len() == 0 || trim_seq(
                corrected@,
            ).len() == 0) ==> exists|i: int|
                0 <= i < final(self).lexicon().corrections@.len()
                    && (#[trigger] final(self).lexicon().corrections@[i]).0@ == trim_seq(raw@)
                    && final(self).lexicon().corrections@[i].1@ == trim_seq(corrected@),
            final(self).lexicon().entries == old(self).lexicon().entries,
            final(self).lexicon().blocked == old(self).lexicon().blocked,
            final(self).dict_v() == old(self).dict_v(),
            final(self).phrase_rows() == old(self).phrase_rows(),
            final(self).common_index() == old(self).common_index(),
            final(self).mode() == old(self).mode(),
    {
        if self.mode_flags & MODE_TRADITIONAL_OUTPUT != 0 {
            return Ok(());
        }
        let raw_t = trim_vec(&chars_of(raw));
        let corrected_t = trim_vec(&chars_of(corrected));
        if raw_t.len() == 0 || corrected_t.len() == 0 {
            return Ok(());
        }
        let raw_s = string_of(&raw_t);
        let corrected_s = string_of(&corrected_t);
        self.invalidate_lookups();
        self.user_lexicon.learn_correction(&raw_s, &corrected_s);
        proof {
            let i = choose|i: int|
                0 <= i < self.user_lexicon.corrections@.len() && (#[trigger] self.user_lexicon.corrections@[i]).0@
                    == raw_s@ && self.user_lexicon.corrections@[i].1@ == corrected_s@;
            assert(self.lexicon().corrections@[i].0@ == trim_seq(raw@));
        }
        Ok(())
    }

    /// Pins (or unpins) `phrase` to the front of the candidates for
    /// `reading`; nothing changes in traditional-output mode, for an empty
    /// key or phrase, or for a command key.
    pub fn set_candidate_pin(&mut self, reading: &str, phrase: &str, pinned: bool) -> (r: Result<(), String>)
        requires
            old(self).wf(),
        ensures
            r is Ok,
            final(self).wf(),
            final(self).epoch() == if old(self).mode() & MODE_TRADITIONAL_OUTPUT != 0 || compact_key(reading@).len()
                == 0 || trim_seq(phrase@).len() == 0 || is_shortcut_key(compact_key(reading@)) {
                old(self).epoch()
            } else {
                old(self).epoch().wrapping_add(1)
            },
            final(self).lexicon().entries_v() == if old(self).mode() & MODE_TRADITIONAL_OUTPUT != 0
                || compact_key(reading@).len() == 0 || trim_seq(phrase@).len() == 0 || is_shortcut_key(
                compact_key(reading@),
            ) {
                old(self).lexicon().entries_v()
            } else {
                entry_pinned(
                    old(self).lexicon().entries_v(),
                    compact_key(reading@),
                    trim_seq(phrase@),
                    pinned,
                    old(self).lexicon().clock,
                )
            },
            old(self).mode() & MODE_TRADITIONAL_OUTPUT != 0 || compact_key(reading@).len() == 0 || trim_seq(
                phrase@,
            ).len() == 0 || is_shortcut_key(compact_key(reading@)) ==> *final(self) == *old(self),
            final(self).lexicon().blocked == old(self).lexicon().blocked,
            final(self).lexicon().selection == old(self).lexicon().selection,
            final(self).lexicon().clock == old(self).lexicon().clock,
            final(self).dict_v() == old(self).dict_v(),
            final(self).phrase_rows() == old(self).phrase_rows(),
            final(self).common_index() == old(self).common_index(),
            final(self).mode() == old(self).mode(),
    {
        if self.mode_flags & MODE_TRADITIONAL_OUTPUT != 0 {
            return Ok(());
        }
        let pt = trim_vec(&chars_of(phrase));
        let key = compact_key_vec(&chars_of(reading));
        if key.len() == 0 || pt.len() == 0 {
            return Ok(());
        }
        if is_direct_input_shortcut_key(&key) {
            return Ok(());
        }
        self.invalidate_lookups();
        let key_s = string_of(&key);
        let p_s = string_of(&pt);
        proof {
            lemma_pinned_unique(self.user_lexicon.entries_v(), key_s@, p_s@, pinned, self.user_lexicon.clock);
        }
        self.user_lexicon.set_pinned(&key_s, &p_s, pinned);
        Ok(())
    }

    /// Removes the user's association of `phrase` with `reading`; tells
    /// whether there was one. A removed phrase also gets negative selection
    /// feedback under the reading.
    pub fn remove_user_phrase(&mut self, reading: &str, phrase: &str) -> (r: Result<bool, String>)
        requires
            old(self).wf(),
        ensures
            final(self).wf(),
            final(self).epoch() == if r == Ok::<bool, String>(true) {
                old(self).epoch().wrapping_add(1)
            } else {
                old(self).epoch()
            },
            ({
                let key = compact_key(reading@);
                let p = trim_seq(phrase@);
                let skip = old(self).mode() & MODE_TRADITIONAL_OUTPUT != 0 || key.len() == 0 || p.len()
                    == 0;
                let removed = !skip && entry_index(old(self).lexicon().entries_v(), key, p) is Some;
                &&& r == Ok::<bool, String>(removed)
                &&& !removed ==> *final(self) == *old(self)
                &&& !skip ==> !has_entry(final(self).lexicon().entries_v(), key, p)
                &&& final(self).lexicon().entries_v() == if skip {
                    old(self).lexicon().entries_v()
                } else {
                    entry_removed(old(self).lexicon().entries_v(), key, p)
                }
                &&& feedbacks_view(final(self).lexicon().selection@) == if removed {
                    feedback_added(
                        feedbacks_view(old(self).lexicon().selection@),
                        key,
                        p,
                        REMOVED_PHRASE_FEEDBACK_DELTA,
                        old(self).lexicon().clock,
                    )
                } else {
                    feedbacks_view(old(self).lexicon().selection@)
                }
            }),
            final(self).lexicon().blocked == old(self).lexicon().blocked,
            final(self).lexicon().clock == old(self).lexicon().clock,
            final(self).dict_v() == old(self).dict_v(),
            final(self).phrase_rows() == old(self).phrase_rows(),
            final(self).common_index() == old(self).common_index(),
            final(self).mode() == old(self).mode(),
    {
        if self.mode_flags & MODE_TRADITIONAL_OUTPUT != 0 {
            return Ok(false);
        }
        let pt = trim_vec(&chars_of(phrase));
        let key = compact_key_vec(&chars_of(reading));
        if key.len() == 0 || pt.len() == 0 {
            return Ok(false);
        }
        let key_s = string_of(&key);
        let p_s = string_of(&pt);
        proof {
            lemma_removed_absent(self.user_lexicon.entries_v(), key_s@, p_s@);
        }
        if !self.user_lexicon.has_exact_input(&key_s, &p_s) {
            return Ok(false);
        }
        self.invalidate_lookups();
        proof {
            lemma_removed_absent(self.user_lexicon.entries_v(), key_s@, p_s@);
        }
        let removed = self.user_lexicon.remove_exact_input(&key_s, &p_s);
        if removed {
            let now = self.user_lexicon.clock;
            add_feedback(&mut self.user_lexicon.selection, &key_s, &p_s, REMOVED_PHRASE_FEEDBACK_DELTA, now);
        }
        Ok(removed)
    }

    /// Blocks `phrase` from being offered; tells whether it was not blocked
    /// already. Nothing changes in traditional-output mode.
    pub fn block_user_phrase(&mut self, phrase: &str) -> (r: Result<bool, String>)
        requires
            old(self).wf(),
        ensures
            final(self).wf(),
            final(self).epoch() == if r == Ok::<bool, String>(true) {
                old(self).epoch().wrapping_add(1)
            } else {
                old(self).epoch()
            },
            old(self).mode() & MODE_TRADITIONAL_OUTPUT != 0 ==> r == Ok::<bool, String>(false)
                && final(self).lexicon() == old(self).lexicon(),
            r != Ok::<bool, String>(true) ==> *final(self) == *old(self),
            old(self).mode() & MODE_TRADITIONAL_OUTPUT == 0 ==> r == Ok::<bool, String>(
                !old(self).lexicon().blocked_v().contains(phrase@),
            ) && final(self).lexicon().blocked_v() == if !old(self).lexicon().blocked_v().contains(
                phrase@,
            ) {
                old(self).lexicon().blocked_v().push(phrase@)
            } else {
                old(self).lexicon().blocked_v()
            },
            final(self).lexicon().entries == old(self).lexicon().entries,
            final(self).dict_v() == old(self).dict_v(),
            final(self).phrase_rows() == old(self).phrase_rows(),
            final(self).common_index() == old(self).common_index(),
            final(self).mode() == old(self).mode(),
    {
        if self.mode_flags & MODE_TRADITIONAL_OUTPUT != 0 {
            return Ok(false);
        }
        let p = phrase.to_string();
        if self.user_lexicon.phrase_is_blocked(&p) {
            return Ok(false);
        }
        self.invalidate_lookups();
        Ok(self.user_lexicon.block_phrase(&p))
    }

    /// Lets `phrase` be offered again; tells whether it was blocked.
    /// Nothing changes in traditional-output mode.
    pub fn unblock_user_phrase(&mut self, phrase: &str) -> (r: Result<bool, String>)
        requires
            old(self).wf(),
        ensures
            final(self).wf(),
            final(self).epoch() == if r == Ok::<bool, String>(true) {
                old(self).epoch().wrapping_add(1)
            } else {
                old(self).epoch()
            },
            old(self).mode() & MODE_TRADITIONAL_OUTPUT != 0 ==> r == Ok::<bool, String>(false)
                && final(self).lexicon() == old(self).lexicon(),
            r != Ok::<bool, String>(true) ==> *final(self) == *old(self),
            old(self).mode() & MODE_TRADITIONAL_OUTPUT == 0 ==> r == Ok::<bool, String>(
                old(self).lexicon().blocked_v().contains(phrase@),
            ) && !final(self).lexicon().blocked_v().contains(phrase@) && forall|q: Seq<char>|
                q != phrase@ ==> (#[trigger] final(self).lexicon().blocked_v().contains(q)
                    <==> old(self).lexicon().blocked_v().contains(q)),
            final(self).lexicon().entries == old(self).lexicon().entries,
            final(self).dict_v() == old(self).dict_v(),
            final(self).phrase_rows() == old(self).phrase_rows(),
            final(self).common_index() == old(self).common_index(),
            final(self).mode() == old(self).mode(),
    {
        if self.mode_flags & MODE_TRADITIONAL_OUTPUT != 0 {
            return Ok(false);
        }
        let p = phrase.to_string();
        if !self.user_lexicon.phrase_is_blocked(&p) {
            return Ok(false);
        }
        self.invalidate_lookups();
        Ok(self.user_lexicon.unblock_phrase(&p))
    }

    /// Starts over with an empty user dictionary.
    pub fn clear_user_lexicon_for_eval(&mut self)
        requires
            old(self).wf(),
        ensures
            final(self).wf(),
            final(self).lookup_cache().len() == 0,
            final(self).short_cache().len() == 0,
            final(self).lexicon().entries@.len() == 0,
            final(self).lexicon().blocked@.len() == 0,
            final(self).lexicon().selection@.len() == 0,
            final(self).lexicon().weak_unselected@.len() == 0,
            final(self).lexicon().observations@.len() == 0,
            final(self).lexicon().context@.len() == 0,
            final(self).lexicon().corrections@.len() == 0,
            final(self).lexicon().clock == 0,
            final(self).dict_v() == old(self).dict_v(),
            final(self).phrase_rows() == old(self).phrase_rows(),
            final(self).common_index() == old(self).common_index(),
            final(self).mode() == old(self).mode(),
            final(self).dir() == old(self).dir(),
            final(self).epoch() == old(self).epoch().wrapping_add(1),
    {
        self.invalidate_lookups();
        self.user_lexicon = UserLexicon::new();
    }

    /// Moves the learning clock forward by `ticks`, saturating, without
    /// learning anything.
    pub fn advance_learning_clock_for_eval(&mut self, ticks: u64)
        requires
            old(self).wf(),
        ensures
            final(self).wf(),
            final(self).lookup_cache().len() == 0,
            final(self).short_cache().len() == 0,
            final(self).lexicon().clock == sat_add(old(self).lexicon().clock, ticks),
            final(self).lexicon().entries == old(self).lexicon().entries,
            final(self).lexicon().blocked == old(self).lexicon().blocked,
            final(self).lexicon().selection == old(self).lexicon().selection,
            final(self).lexicon().weak_unselected == old(self).lexicon().weak_unselected,
            final(self).lexicon().observations == old(self).lexicon().observations,
            final(self).lexicon().context == old(self).lexicon().context,
            final(self).dict_v() == old(self).dict_v(),
            final(self).phrase_rows() == old(self).phrase_rows(),
            final(self).common_index() == old(self).common_index(),
            final(self).mode() == old(self).mode(),
            final(self).epoch() == old(self).epoch().wrapping_add(1),
    {
        self.invalidate_lookups();
        self.user_lexicon.advance_clock_for_eval(ticks);
    }

    /// The mode flags.
    pub fn mode_flags(&self) -> (r: u32)
        ensures
            r == self.mode(),
    {
        self.mode_flags
    }

    /// Sets the mode flags; a change of flags starts a new cache epoch and
    /// forgets the cached lookups.
    pub fn set_mode_flags(&mut self, flags: u32)
        requires
            old(self).wf(),
        ensures
            final(self).wf(),
            old(self).mode() != flags ==> final(self).lookup_cache().len() == 0 && final(self).short_cache().len() == 0,
            old(self).mode() == flags ==> final(self).lookup_cache() == old(self).lookup_cache()
                && final(self).short_cache() == old(self).short_cache(),
            final(self).mode() == flags,
            final(self).epoch() == if old(self).mode() != flags {
                old(self).epoch().wrapping_add(1)
            } else {
                old(self).epoch()
            },
            final(self).lexicon() == old(self).lexicon(),
            final(self).dict_v() == old(self).dict_v(),
            final(self).lexicon_base() == old(self).lexicon_base(),
            final(self).lexicon_extension() == old(self).lexicon_extension(),
            final(self).lexicon_abbreviations() == old(self).lexicon_abbreviations(),
            final(self).lexicon_mixed() == old(self).lexicon_mixed(),
            final(self).common_index() == old(self).common_index(),
            final(self).dir() == old(self).dir(),
    {
        if self.mode_flags != flags {
            self.invalidate_lookups();
        }
        self.mode_flags = flags;
    }

    /// The cache epoch: it changes whenever what a lookup returns may have
    /// changed for reasons other than the user dictionary.
    pub fn cache_epoch(&self) -> (r: u64)
        ensures
            r == self.epoch(),
    {
        self.cache_epoch
    }

    /// Records `dir` as the phrase lexicon directory, starts a new cache
    /// epoch and forgets the cached lookups; the lexicon files there are read
    /// by the caller.
    pub fn reload_phrase_dir(&mut self, dir: Option<&str>) -> (r: Result<(), String>)
        requires
            old(self).wf(),
        ensures
            r is Ok,
            final(self).wf(),
            final(self).lookup_cache().len() == 0,
            final(self).short_cache().len() == 0,
            final(self).dir() == match dir {
                Some(d) => Some(d@),
                None => None::<Seq<char>>,
            },
            final(self).epoch() == old(self).epoch().wrapping_add(1),
            final(self).lexicon() == old(self).lexicon(),
            final(self).dict_v() == old(self).dict_v(),
            final(self).phrase_rows() == old(self).phrase_rows(),
            final(self).common_index() == old(self).common_index(),
            final(self).mode() == old(self).mode(),
    {
        self.invalidate_lookups();
        self.phrase_dir = match dir {
            Some(d) => Some(d.to_string()),
            None => None,
        };
        Ok(())
    }

    /// Sets the common-character list that orders the single characters of
    /// a lookup (none: code-point order), starts a new cache epoch and
    /// forgets the cached lookups.
    pub fn set_single_char_common_index(&mut self, index: Option<SingleCharCommonIndex>)
        requires
            old(self).wf(),
        ensures
            final(self).wf(),
            final(self).common_index() == index,
            final(self).phrase_rows() == old(self).phrase_rows(),
            final(self).lookup_cache().len() == 0,
            final(self).short_cache().len() == 0,
            final(self).epoch() == old(self).epoch().wrapping_add(1),
            final(self).lexicon() == old(self).lexicon(),
            final(self).dict_v() == old(self).dict_v(),
            final(self).mode() == old(self).mode(),
            final(self).dir() == old(self).dir(),
    {
        self.invalidate_lookups();
        self.common_singles = index;
    }

    /// Replaces the base phrase lexicon with the rows of a lexicon text
    /// (lines of `phrase<TAB>reading<TAB>weight`), also filed under their
    /// abbreviations and mixed keys, starts a new cache epoch and forgets the cached
    /// lookups.
    pub fn load_phrase_lexicon_text(&mut self, text: &str)
        requires
            old(self).wf(),
        ensures
            final(self).wf(),
            final(self).lexicon_base() == parse_lexicon(text@),
            final(self).lexicon_abbreviations() == parse_lexicon_abbreviations(text@),
            final(self).lexicon_mixed() == parse_lexicon_mixed(text@),
            final(self).lexicon_extension() == old(self).lexicon_extension(),
            final(self).common_index() == old(self).common_index(),
            final(self).lookup_cache().len() == 0,
            final(self).short_cache().len() == 0,
            final(self).epoch() == old(self).epoch().wrapping_add(1),
            final(self).lexicon() == old(self).lexicon(),
            final(self).dict_v() == old(self).dict_v(),
            final(self).mode() == old(self).mode(),
            final(self).dir() == old(self).dir(),
    {
        self.invalidate_lookups();
        self.phrase_lexicon = parse_lexicon_text(text);
        self.abbreviation_lexicon = parse_lexicon_abbreviations_text(text);
        self.mixed_lexicon = parse_lexicon_mixed_text(text);
    }

    /// Replaces the extension lexicon with the rows of a lexicon text, starts
    /// a new cache epoch and forgets the cached lookups.
    pub fn load_extension_lexicon_text(&mut self, text: &str)
        requires
            old(self).wf(),
        ensures
            final(self).wf(),
            final(self).lexicon_extension() == parse_lexicon(text@),
            final(self).lexicon_base() == old(self).lexicon_base(),
            final(self).lexicon_abbreviations() == old(self).lexicon_abbreviations(),
            final(self).lexicon_mixed() == old(self).lexicon_mixed(),
            final(self).common_index() == old(self).common_index(),
            final(self).lookup_cache().len() == 0,
            final(self).short_cache().len() == 0,
            final(self).epoch() == old(self).epoch().wrapping_add(1),
            final(self).lexicon() == old(self).lexicon(),
            final(self).dict_v() == old(self).dict_v(),
            final(self).mode() == old(self).mode(),
            final(self).dir() == old(self).dir(),
    {
        self.invalidate_lookups();
        self.extension_lexicon = parse_lexicon_text(text);
    }
}

/// The lexicon rows a lookup reads, as `PinyinEngine::phrase_rows` says.
pub proof fn lemma_phrase_rows(e: PinyinEngine)
    ensures
        e.phrase_rows() == lookup_rows(
            e.lexicon_base(),
            e.lexicon_extension(),
            e.lexicon_abbreviations(),
            e.mode() & MODE_JIANPIN != 0,
            e.lexicon_mixed(),
            e.mode() & MODE_MIXED_PINYIN != 0,
        ),
{
}

/// The first page of a lookup is the first `TSF_PAGE_SIZE` candidates of the
/// full lookup of the same input on the same engine state.
pub proof fn lemma_first_page_is_full_lookup_prefix(
    e: PinyinEngine,
    input: Seq<char>,
    full: Seq<Seq<char>>,
    page: Seq<Seq<char>>,
)
    requires
        is_lookup_answer(
            e.lexicon().entries_v(),
            e.lexicon().blocked_v(),
            e.phrase_rows(),
            e.dict_v(),
            e.common_index(),
            compact_key(input),
            full,
        ),
        exists|all: Seq<Seq<char>>|
            is_lookup_answer(
                e.lexicon().entries_v(),
                e.lexicon().blocked_v(),
                e.phrase_rows(),
                e.dict_v(),
                e.common_index(),
                compact_key(input),
                all,
            ) && page == prefix_of(all, TSF_PAGE_SIZE as int),
    ensures
        page == prefix_of(full, TSF_PAGE_SIZE as int),
        page.len() <= TSF_PAGE_SIZE,
{
    let all = choose|all: Seq<Seq<char>>|
        is_lookup_answer(
            e.lexicon().entries_v(),
            e.lexicon().blocked_v(),
            e.phrase_rows(),
            e.dict_v(),
            e.common_index(),
            compact_key(input),
            all,
        ) && page == prefix_of(all, TSF_PAGE_SIZE as int);
    lemma_lookup_answer_unique(
        e.lexicon().entries_v(),
        e.lexicon().blocked_v(),
        e.phrase_rows(),
        e.dict_v(),
        e.common_index(),
        compact_key(input),
        all,
        full,
    );
}

/// The most recent commit of the context history other than `p`.
pub open spec fn first_other(ctx: Seq<Seq<char>>, p: Seq<char>) -> Option<Seq<char>>
    decreases ctx.len(),
{
    if ctx.len() == 0 {
        None
    } else if ctx[0] != p {
        Some(ctx[0])
    } else {
        first_other(ctx.skip(1), p)
    }
}

/// The key under which feedback is kept that holds only after the commit
/// `prev`: `prev`, a tab, then the reading's key.
pub open spec fn context_key(prev: Seq<char>, key: Seq<char>) -> Seq<char> {
    prev + seq!['\t'] + key
}

/// The selection and weak feedback after the user selected `phrase` for
/// `reading` at `selected_index` on `page`, skipping `skipped`: nothing is
/// recorded in traditional-output mode, for an empty key or phrase, or for a
/// phrase that is not learnable; the weights are recorded under the key and,
/// after a preceding commit, also under the context key; weak penalties go
/// under the context key when there is a preceding commit, else under the
/// key.
pub open spec fn selection_state(
    sel_fb: Seq<FeedbackView>,
    weak_fb: Seq<FeedbackView>,
    ctx: Seq<Seq<char>>,
    clock: u64,
    mode: u32,
    reading: Seq<char>,
    phrase: Seq<char>,
    selected_index: int,
    page: int,
    skipped: Seq<Seq<char>>,
) -> (Seq<FeedbackView>, Seq<FeedbackView>) {
    let key = compact_key(reading);
    let p = trim_seq(phrase);
    if mode & MODE_TRADITIONAL_OUTPUT != 0 || key.len() == 0 || p.len() == 0 || !learnable_phrase(p) {
        (sel_fb, weak_fb)
    } else {
        let fb = selection_feedback(p, selected_index, page, skipped);
        let prev = first_other(ctx, p);
        let s1 = if fb.0.len() > 0 {
            let a = feedback_all(sel_fb, key, fb.0, clock);
            match prev {
                Some(q) => feedback_all(a, context_key(q, key), fb.0, clock),
                None => a,
            }
        } else {
            sel_fb
        };
        let w1 = if fb.1.len() > 0 {
            match prev {
                Some(q) => feedback_all(weak_fb, context_key(q, key), fb.1, clock),
                None => feedback_all(weak_fb, key, fb.1, clock),
            }
        } else {
            weak_fb
        };
        (s1, w1)
    }
}

/// The selection and weak feedback after the same selection is made once at
/// each of `clocks` in turn, from `sel` and `weak`.
pub open spec fn repeated_selection(
    sel: Seq<FeedbackView>,
    weak: Seq<FeedbackView>,
    ctx: Seq<Seq<char>>,
    clocks: Seq<u64>,
    mode: u32,
    reading: Seq<char>,
    phrase: Seq<char>,
    selected_index: int,
    page: int,
    skipped: Seq<Seq<char>>,
) -> (Seq<FeedbackView>, Seq<FeedbackView>)
    decreases clocks.len(),
{
    if clocks.len() == 0 {
        (sel, weak)
    } else {
        let prev = repeated_selection(sel, weak, ctx, clocks.drop_last(), mode, reading, phrase, selected_index, page, skipped);
        selection_state(prev.0, prev.1, ctx, clocks.last(), mode, reading, phrase, selected_index, page, skipped)
    }
}

/// A candidate passed over in repeated selections cools down gradually:
/// when no other commit precedes in the context, each selection that
/// penalises the candidate `q` adds one weak penalty to it under the
/// reading's key, so `n` selections leave it at `n` weak penalties from
/// where it stood, and it gets no selection weight when it had none.
pub proof fn lemma_repeated_pass_over_cools(
    sel: Seq<FeedbackView>,
    weak: Seq<FeedbackView>,
    ctx: Seq<Seq<char>>,
    clocks: Seq<u64>,
    mode: u32,
    reading: Seq<char>,
    phrase: Seq<char>,
    selected_index: int,
    page: int,
    skipped: Seq<Seq<char>>,
    q: Seq<char>,
)
    requires
        mode & MODE_TRADITIONAL_OUTPUT == 0,
        compact_key(reading).len() > 0,
        learnable_phrase(trim_seq(phrase)),
        first_other(ctx, trim_seq(phrase)) is None,
        exists|j: int|
            0 <= j < crate::learn_plan::skipped_scan(skipped, trim_seq(phrase)).0.len() && (#[trigger] crate::learn_plan::skipped_scan(
                skipped,
                trim_seq(phrase),
            ).0[j]).0 == q,
        crate::user_lexicon::feedback_score(weak, compact_key(reading), q) - clocks.len() >= i64::MIN,
    ensures
        crate::user_lexicon::feedback_score(
            repeated_selection(sel, weak, ctx, clocks, mode, reading, phrase, selected_index, page, skipped).1,
            compact_key(reading),
            q,
        ) == crate::user_lexicon::feedback_score(weak, compact_key(reading), q) + clocks.len()
            * crate::learn_plan::WEAK_UNSELECTED_DELTA,
        crate::user_lexicon::feedback_index(sel, compact_key(reading), q) is None ==> crate::user_lexicon::feedback_index(
            repeated_selection(sel, weak, ctx, clocks, mode, reading, phrase, selected_index, page, skipped).0,
            compact_key(reading),
            q,
        ) is None,
    decreases clocks.len(),
{
    if clocks.len() > 0 {
        let key = compact_key(reading);
        let p = trim_seq(phrase);
        lemma_repeated_pass_over_cools(sel, weak, ctx, clocks.drop_last(), mode, reading, phrase, selected_index, page, skipped, q);
        let prev = repeated_selection(sel, weak, ctx, clocks.drop_last(), mode, reading, phrase, selected_index, page, skipped);
        let fb = selection_feedback(p, selected_index, page, skipped);
        crate::learn_plan::lemma_skipped_scan_shape(skipped, p);
        let w = fb.1;
        let j = choose|j: int| 0 <= j < w.len() && (#[trigger] w[j]).0 == q;
        assert(w[j].1 == crate::learn_plan::WEAK_UNSELECTED_DELTA);
        assert(w[j].0 != p);
        assert(p.len() > 0);
        crate::user_lexicon::lemma_feedback_all_score(prev.1, key, w, clocks.last(), q);
        if fb.0.len() > 0 {
            assert forall|a: int, b: int| 0 <= a < b < fb.0.len() implies (#[trigger] fb.0[a]).0 != (#[trigger] fb.0[b]).0 by {}
            crate::user_lexicon::lemma_feedback_all_score(prev.0, key, fb.0, clocks.last(), q);
            assert(fb.0[0].0 == p);
        }
    }
}

/// A selection that records feedback (and so starts a new cache epoch):
/// not skipped as in `selection_state`, and with a weight or a weak penalty
/// to record.
pub open spec fn selection_recorded(
    mode: u32,
    reading: Seq<char>,
    phrase: Seq<char>,
    selected_index: int,
    page: int,
    skipped: Seq<Seq<char>>,
) -> bool {
    let key = compact_key(reading);
    let p = trim_seq(phrase);
    let fb = selection_feedback(p, selected_index, page, skipped);
    &&& mode & MODE_TRADITIONAL_OUTPUT == 0
    &&& key.len() > 0
    &&& p.len() > 0
    &&& learnable_phrase(p)
    &&& (fb.0.len() > 0 || fb.1.len() > 0)
}

fn first_other_commit(ctx: &Vec<String>, p: &String) -> (r: Option<String>)
    ensures
        match r {
            Some(q) => first_other(strs_view(ctx@), p@) == Some(q@),
            None => first_other(strs_view(ctx@), p@) is None,
        },
{
    let ghost cv = strs_view(ctx@);
    let mut i: usize = 0;
    assert(cv.skip(0) =~= cv);
    while i < ctx.len()
        invariant
            i <= ctx.len(),
            cv == strs_view(ctx@),
            first_other(cv, p@) == first_other(cv.skip(i as int), p@),
        decreases ctx.len() - i,
    {
        let ghost rest = cv.skip(i as int);
        assert(rest[0] == cv[i as int]);
        assert(rest.skip(1) =~= cv.skip(i + 1));
        if ctx[i] != *p {
            return Some(ctx[i].clone());
        }
        i += 1;
    }
    None
}

impl PinyinEngine {
    /// Records how the user chose among the candidates: `phrase` selected
    /// for `reading` at `selected_index` on `page`, after `skipped`.
    pub fn learn_selection_feedback(
        &mut self,
        reading: &str,
        phrase: &str,
        selected_index: usize,
        page: usize,
        skipped_candidates: &[String],
    ) -> (r: Result<(), String>)
        requires
            old(self).wf(),
        ensures
            r is Ok,
            final(self).wf(),
            final(self).epoch() == if selection_recorded(
                old(self).mode(),
                reading@,
                phrase@,
                selected_index as int,
                page as int,
                strs_view(skipped_candidates@),
            ) {
                old(self).epoch().wrapping_add(1)
            } else {
                old(self).epoch()
            },
            (feedbacks_view(final(self).lexicon().selection@), feedbacks_view(
                final(self).lexicon().weak_unselected@,
            )) == selection_state(
                feedbacks_view(old(self).lexicon().selection@),
                feedbacks_view(old(self).lexicon().weak_unselected@),
                old(self).lexicon().context_v(),
                old(self).lexicon().clock,
                old(self).mode(),
                reading@,
                phrase@,
                selected_index as int,
                page as int,
                strs_view(skipped_candidates@),
            ),
            !selection_recorded(
                old(self).mode(),
                reading@,
                phrase@,
                selected_index as int,
                page as int,
                strs_view(skipped_candidates@),
            ) ==> *final(self) == *old(self),
            final(self).lexicon().entries == old(self).lexicon().entries,
            final(self).lexicon().blocked == old(self).lexicon().blocked,
            final(self).lexicon().context == old(self).lexicon().context,
            final(self).lexicon().clock == old(self).lexicon().clock,
            final(self).dict_v() == old(self).dict_v(),
            final(self).phrase_rows() == old(self).phrase_rows(),
            final(self).common_index() == old(self).common_index(),
            final(self).mode() == old(self).mode(),
    {
        if self.mode_flags & MODE_TRADITIONAL_OUTPUT != 0 {
            return Ok(());
        }
        let key = compact_key_vec(&chars_of(reading));
        let pt = trim_vec(&chars_of(phrase));
        if key.len() == 0 || pt.len() == 0 {
            return Ok(());
        }
        if !learnable_chars(&pt) {
            return Ok(());
        }
        let key_s = string_of(&key);
        let p_s = string_of(&pt);
        let prev = first_other_commit(&self.user_lexicon.context, &p_s);
        let (adj, weak) = selection_feedback_vec(&pt, selected_index, page, skipped_candidates);
        assert(strs_view(skipped_candidates@) == crate::dict::strings_view(skipped_candidates@));
        let now = self.user_lexicon.clock;
        if adj.len() > 0 || weak.len() > 0 {
            self.invalidate_lookups();
        }
        if adj.len() > 0 {
            add_feedback_all(&mut self.user_lexicon.selection, &key_s, &adj, now);
            match &prev {
                Some(q) => {
                    let ck = context_key_string(q, &key);
                    add_feedback_all(&mut self.user_lexicon.selection, &ck, &adj, now);
                },
                None => {},
            }
        }
        if weak.len() > 0 {
            match &prev {
                Some(q) => {
                    let ck = context_key_string(q, &key);
                    add_feedback_all(&mut self.user_lexicon.weak_unselected, &ck, &weak, now);
                },
                None => {
                    add_feedback_all(&mut self.user_lexicon.weak_unselected, &key_s, &weak, now);
                },
            }
        }
        Ok(())
    }
}

fn context_key_string(prev: &String, key: &Vec<char>) -> (r: String)
    ensures
        r@ == context_key(prev@, key@),
{
    let mut v = chars_of(prev.as_str());
    v.push('\t');
    let mut i: usize = 0;
    let ghost base = v@;
    while i < key.len()
        invariant
            i <= key.len(),
            v@ == base + key@.take(i as int),
        decreases key.len() - i,
    {
        v.push(key[i]);
        assert(key@.take(i + 1) =~= key@.take(i as int).push(key@[i as int]));
        i += 1;
    }
    assert(key@.take(key.len() as int) =~= key@);
    assert(v@ =~= context_key(prev@, key@));
    string_of(&v)
}

/// Learning from a commit never pairs a reading with the same phrase twice.
pub proof fn lemma_commit_keeps_unique(
    st: LexState,
    dict: Map<Seq<char>, Vec<char>>,
    mode: u32,
    blocked: Seq<Seq<char>>,
    reading: Seq<char>,
    phrase: Seq<char>,
    flags: u32,
)
    requires
        unique_entries(st.0),
    ensures
        unique_entries(commit_state(st, dict, mode, blocked, reading, phrase, flags).0),
{
    let p = trim_seq(phrase);
    let key = compact_key(reading);
    let now = sat_add(st.2, 1);
    lemma_learned_unique(st.0, key, p, single_char_delta(mode, flags), now);
    let novel = auto_novel(dict, reading, key, p, blocked);
    let syls = full_syllables(dict, key);
    let prof = commit_profile(
        mode,
        flags,
        p.len(),
        novel is Some,
        match syls {
            Some(s) => Some(s.len()),
            None => None,
        },
    );
    lemma_learned_unique(st.0, key, p, prof.0, now);
    lemma_apply_learns_unique(
        learned(st.0, key, p, prof.0, now),
        now,
        extra_learn_ops(key, p, flags & LEARN_FLAG_WEAK != 0, novel, syls),
    );
}

/// The intent of the typed input, from what the engine knows: empty input
/// is unknown; otherwise the precedence of `intent_of` over the input taken
/// without surrounding whitespace, its key, whether the key is a command,
/// whether English words are on, whether the key is one reading (of at
/// least two letters), whether it splits into two or more readings, and, for
/// two to four letters typed as letters only, the short-abbreviation length.
pub open spec fn input_intent_spec(
    dict: Map<Seq<char>, Vec<char>>,
    mode: u32,
    buffer: Seq<char>,
    mixed_hot: bool,
    mixed_keys: Seq<MixedPinyinKeyExpansion>,
) -> InputIntent {
    let raw = trim_seq(buffer);
    let key = compact_key(raw);
    if raw.len() == 0 {
        InputIntent::Unknown
    } else {
        intent_of(
            preserve_ascii(raw),
            plain_ascii_word(raw, key),
            is_shortcut_key(key),
            mode & MODE_ENGLISH_WORDS != 0,
            exact_single_syllable(raw, key, dict.dom()) || (key.len() >= 2 && dict.contains_key(key)),
            full_syllables(dict, key) is Some,
            if pure_short_abbrev(raw, key) && key.len() <= SHORT_HOTWORD_MAX_CHARS {
                Some(key.len() as usize)
            } else {
                None
            },
            mixed_prefix_of(mode, key, mixed_hot, mixed_keys),
        )
    }
}

/// Whether the key asks for the mixed-prefix intent: with mixed pinyin on,
/// a key of four or more letters that is no command and that the mixed
/// index holds hot phrases for (`mixed_hot`), or any of its mixed-pinyin
/// expansions that asks for it.
pub open spec fn mixed_prefix_of(
    mode: u32,
    key: Seq<char>,
    mixed_hot: bool,
    mixed_keys: Seq<MixedPinyinKeyExpansion>,
) -> bool {
    (mode & MODE_MIXED_PINYIN != 0 && !is_shortcut_key(key) && key.len() >= 4 && mixed_hot) || exists|i: int|
        0 <= i < mixed_keys.len() && #[trigger] mixed_prefix_intent(mixed_keys[i])
}

/// What is left of a reading once its first syllable is typed: for a
/// reading that starts with an ASCII letter other than `u` or `v` and whose
/// key splits into two or more readings, the input after the letters of the
/// first one, without leading whitespace, when not empty; for a short
/// abbreviation of two to four letters that is not itself a reading, the key
/// without its first letter.
pub open spec fn strip_leading_spec(dict: Map<Seq<char>, Vec<char>>, input: Seq<char>) -> Option<Seq<char>> {
    let t = trim_seq(input);
    let key = compact_key(t);
    if t.len() == 0 || !is_alpha(t[0]) || lower_char(t[0]) == 'u' || lower_char(t[0]) == 'v' {
        None
    } else {
        match full_syllables(dict, key) {
            Some(syls) => {
                let rest = trim_start_seq(t.skip(letter_end(t, syls[0].len() as int)));
                if rest.len() > 0 {
                    Some(rest)
                } else {
                    None
                }
            },
            None => if pure_short_abbrev(t, key) && key.len() <= SHORT_HOTWORD_MAX_CHARS && !dict.contains_key(key) {
                Some(key.skip(1))
            } else {
                None
            },
        }
    }
}

/// The position in `s` just after its first `n` ASCII letters (or its
/// length, when it has fewer).
pub open spec fn letter_end(s: Seq<char>, n: int) -> int
    decreases s.len(),
{
    if n <= 0 || s.len() == 0 {
        0
    } else if is_alpha(s[0]) {
        1 + letter_end(s.skip(1), n - 1)
    } else {
        1 + letter_end(s.skip(1), n)
    }
}

proof fn lemma_letter_end_bound(s: Seq<char>, n: int)
    ensures
        0 <= letter_end(s, n) <= s.len(),
    decreases s.len(),
{
    if n > 0 && s.len() > 0 {
        lemma_letter_end_bound(s.skip(1), if is_alpha(s[0]) { n - 1 } else { n });
    }
}

fn letter_end_exec(s: &Vec<char>, n: usize) -> (r: usize)
    ensures
        r as int == letter_end(s@, n as int),
        r <= s.len(),
{
    let mut i: usize = 0;
    let mut left: usize = n;
    assert(s@.skip(0) =~= s@);
    while left > 0 && i < s.len()
        invariant
            i <= s.len(),
            left <= n,
            letter_end(s@, n as int) == i + letter_end(s@.skip(i as int), left as int),
        decreases s.len() - i,
    {
        assert(s@.skip(i as int)[0] == s@[i as int]);
        assert(s@.skip(i as int).skip(1) =~= s@.skip(i + 1));
        if crate::text::is_alpha_char(s[i]) {
            left -= 1;
        }
        i += 1;
    }
    proof {
        lemma_letter_end_bound(s@.skip(i as int), left as int);
    }
    i
}

impl PinyinEngine {
    /// What the typed input is meant as, where the mixed-pinyin index knows
    /// nothing of its key.
    pub fn input_intent(&self, pinyin_buffer: &str) -> (r: InputIntent)
        ensures
            r == input_intent_spec(self.dict_v(), self.mode(), pinyin_buffer@, false, Seq::empty()),
    {
        let none: Vec<MixedPinyinKeyExpansion> = Vec::new();
        self.input_intent_with_mixed_keys(pinyin_buffer, false, &none)
    }

    /// What the typed input is meant as, given what the mixed-pinyin index
    /// answers for its key: whether it holds hot phrases for it
    /// (`mixed_hot`) and its mixed-pinyin expansions (`mixed_keys`, empty
    /// with mixed pinyin off).
    pub fn input_intent_with_mixed_keys(
        &self,
        pinyin_buffer: &str,
        mixed_hot: bool,
        mixed_keys: &Vec<MixedPinyinKeyExpansion>,
    ) -> (r: InputIntent)
        ensures
            r == input_intent_spec(self.dict_v(), self.mode(), pinyin_buffer@, mixed_hot, mixed_keys@),
    {
        proof {
            use_type_invariant(&self.index);
        }
        let raw = trim_vec(&chars_of(pinyin_buffer));
        if raw.len() == 0 {
            return InputIntent::Unknown;
        }
        let key = compact_key_vec(&raw);
        let raw_s = string_of(&raw);
        let key_s = string_of(&key);
        let shortcut = is_direct_input_shortcut_key(&key);
        let single = is_exact_complete_single_syllable_input(raw_s.as_str(), key_s.as_str(), &self.index.syllables)
            || (key.len() >= 2 && self.index.dict.contains_key(key_s.as_str()));
        proof {
            assert(self.index.syllables@ =~= self.dict_v().dom());
        }
        let multi = full_pinyin_syllables(&self.index.dict, &key).is_some();
        let short = if is_pure_short_abbrev_initial_input(raw_s.as_str(), key_s.as_str()) && key.len()
            <= SHORT_HOTWORD_MAX_CHARS {
            Some(key.len())
        } else {
            None
        };
        classify_input_intent(
            raw_s.as_str(),
            key_s.as_str(),
            shortcut,
            self.mode_flags & MODE_ENGLISH_WORDS != 0,
            single,
            multi,
            short,
            self.mixed_prefix_exec(&key, shortcut, mixed_hot, mixed_keys),
        )
    }

    fn mixed_prefix_exec(
        &self,
        key: &Vec<char>,
        shortcut: bool,
        mixed_hot: bool,
        mixed_keys: &Vec<MixedPinyinKeyExpansion>,
    ) -> (r: bool)
        requires
            shortcut == is_shortcut_key(key@),
        ensures
            r == mixed_prefix_of(self.mode(), key@, mixed_hot, mixed_keys@),
    {
        if self.mode_flags & MODE_MIXED_PINYIN != 0 && !shortcut && key.len() >= 4 && mixed_hot {
            return true;
        }
        let mut i: usize = 0;
        while i < mixed_keys.len()
            invariant
                i <= mixed_keys.len(),
                forall|j: int| 0 <= j < i ==> !mixed_prefix_intent(#[trigger] mixed_keys@[j]),
            decreases mixed_keys.len() - i,
        {
            if is_mixed_prefix_input_intent(&mixed_keys[i]) {
                return true;
            }
            i += 1;
        }
        false
    }

    /// The input left once its first syllable is typed.
    pub fn strip_leading_syllable_from_reading(&self, input: &str) -> (r: Option<String>)
        ensures
            match r {
                Some(s) => strip_leading_spec(self.dict_v(), input@) == Some(s@),
                None => strip_leading_spec(self.dict_v(), input@) is None,
            },
    {
        let t = trim_vec(&chars_of(input));
        if t.len() == 0 {
            return None;
        }
        let first = t[0];
        if !is_alpha_char(first) || crate::text::lower_of(first) == 'u' || crate::text::lower_of(first) == 'v' {
            return None;
        }
        let key = compact_key_vec(&t);
        match full_pinyin_syllables(&self.index.dict, &key) {
            Some(syls) => {
                let n = chars_of(syls[0].as_str()).len();
                let end = letter_end_exec(&t, n);
                let rest = crate::text::trim_start_vec(&slice_vec(&t, end, t.len()));
                if rest.len() > 0 {
                    Some(string_of(&rest))
                } else {
                    None
                }
            },
            None => {
                let t_s = string_of(&t);
                let key_s = string_of(&key);
                if is_pure_short_abbrev_initial_input(t_s.as_str(), key_s.as_str()) && key.len()
                    <= SHORT_HOTWORD_MAX_CHARS && !self.index.dict.contains_key(key_s.as_str()) {
                    let rest = slice_vec(&key, 1, key.len());
                    assert(rest@ =~= key@.skip(1));
                    Some(string_of(&rest))
                } else {
                    None
                }
            },
        }
    }
}

impl PinyinEngine {
    /// Abbreviated (initials-only) input is on.
    pub fn jianpin_enabled(&self) -> (r: bool)
        ensures
            r == (self.mode() & MODE_JIANPIN != 0),
    {
        self.mode_flags & MODE_JIANPIN != 0
    }

    /// Mixed full/initial input is on.
    pub fn mixed_pinyin_enabled(&self) -> (r: bool)
        ensures
            r == (self.mode() & MODE_MIXED_PINYIN != 0),
    {
        self.mode_flags & MODE_MIXED_PINYIN != 0
    }

    /// English words are offered.
    pub fn english_word_input_enabled(&self) -> (r: bool)
        ensures
            r == (self.mode() & MODE_ENGLISH_WORDS != 0),
    {
        self.mode_flags & MODE_ENGLISH_WORDS != 0
    }

    /// Runs the lookups of every prefix of a fixed list of representative
    /// readings, in order, before interactive input starts, which fills the
    /// lookup caches; what lookups answer does not change. The last reading
    /// warmed is the long `zhonghuarenmingongheguo`: afterwards the final
    /// lookup cache holds its answer, when that answer is not empty.
    pub fn warmup_interactive_paths(&mut self)
        requires
            old(self).wf(),
        ensures
            final(self).wf(),
            same_engine_state(*final(self), *old(self)),
            exists|ans: Seq<Seq<char>>|
                #![trigger is_lookup_answer(
                    old(self).lexicon().entries_v(),
                    old(self).lexicon().blocked_v(),
                    old(self).phrase_rows(),
                    old(self).dict_v(),
                    old(self).common_index(),
                    compact_key("zhonghuarenmingongheguo"@),
                    ans,
                )]
                is_lookup_answer(
                    old(self).lexicon().entries_v(),
                    old(self).lexicon().blocked_v(),
                    old(self).phrase_rows(),
                    old(self).dict_v(),
                    old(self).common_index(),
                    compact_key("zhonghuarenmingongheguo"@),
                    ans,
                ) && (ans.len() > 0 ==> lru_value(
                    final(self).lookup_cache(),
                    ("zhonghuarenmingongheguo"@, old(self).mode(), old(self).epoch()),
                ) == Some(ans)),
    {
        let readings: [&str; 12] = [
            "ni",
            "nihao",
            "jintian",
            "mingtian",
            "shur",
            "shurufa",
            "bejing",
            "beijing",
            "anguan",
            "angui",
            "hangzhou",
            "nihaoshijie",
        ];
        let mut k: usize = 0;
        while k < 12
            invariant
                self.wf(),
                same_engine_state(*self, *old(self)),
            decreases 12 - k,
        {
            self.warmup_proper_prefixes(readings[k]);
            let _ = self.lookup_tsf_candidates(readings[k]);
            k += 1;
        }
        let last = "zhonghuarenmingongheguo";
        self.warmup_proper_prefixes(last);
        let r = self.lookup_tsf_candidates(last);
        proof {
            lemma_last_warmup_reading_cacheable();
        }
    }

    /// Looks up every proper prefix of `reading`, the shortest first.
    fn warmup_proper_prefixes(&mut self, reading: &str)
        requires
            old(self).wf(),
        ensures
            final(self).wf(),
            same_engine_state(*final(self), *old(self)),
    {
        let chars = chars_of(reading);
        let mut end: usize = 1;
        while end < chars.len()
            invariant
                1 <= end,
                self.wf(),
                same_engine_state(*self, *old(self)),
            decreases chars.len() - end,
        {
            let prefix = string_of(&slice_vec(&chars, 0, end));
            let _ = self.lookup_tsf_candidates(prefix.as_str());
            end += 1;
        }
    }
}

proof fn lemma_letters_of_alpha(s: Seq<char>)
    requires
        forall|i: int| 0 <= i < s.len() ==> is_alpha(#[trigger] s[i]),
    ensures
        letters_of(s) == s,
    decreases s.len(),
{
    if s.len() > 0 {
        lemma_letters_of_alpha(s.drop_last());
        assert(s.drop_last().push(s.last()) =~= s);
    }
}

proof fn lemma_replace_same_length(s: Seq<char>, pat: Seq<char>, rep: Seq<char>)
    requires
        pat.len() == rep.len(),
    ensures
        crate::dict::replace_seq(s, pat, rep).len() == s.len(),
    decreases s.len(),
{
    if pat.len() > 0 && s.len() > 0 {
        if crate::text::starts_with(s, pat) {
            lemma_replace_same_length(s.skip(pat.len() as int), pat, rep);
        } else {
            lemma_replace_same_length(s.drop_first(), pat, rep);
        }
    }
}

/// The last warmed reading is cached only in the final lookup cache: its key
/// is as long as the reading and starts with `z`.
proof fn lemma_last_warmup_reading_cacheable()
    ensures
        ({
            let w = "zhonghuarenmingongheguo"@;
            let key = compact_key(w);
            &&& final_cacheable(w, is_shortcut_key(key))
            &&& !short_cacheable(w, key, is_shortcut_key(key))
        }),
{
    reveal_strlit("zhonghuarenmingongheguo");
    let w = "zhonghuarenmingongheguo"@;
    assert(w.len() == 23);
    assert forall|i: int| 0 <= i < w.len() implies crate::text::is_lower(#[trigger] w[i]) by {}
    lemma_letters_of_alpha(w);
    let low = lower_seq(w);
    assert(low =~= w);
    let a = low.map_values(|c: char| crate::dict::umlaut_to_v(c));
    assert(a =~= w);
    let nue = seq!['n', 'u', 'e'];
    let b = crate::dict::replace_seq(a, nue, seq!['n', 'v', 'e']);
    lemma_replace_same_length(a, nue, seq!['n', 'v', 'e']);
    assert(!crate::text::starts_with(a, nue)) by {
        assert(a.subrange(0, 3)[0] == 'z');
    }
    assert(b[0] == 'z');
    let lue = seq!['l', 'u', 'e'];
    let c = crate::dict::replace_seq(b, lue, seq!['l', 'v', 'e']);
    lemma_replace_same_length(b, lue, seq!['l', 'v', 'e']);
    assert(!crate::text::starts_with(b, lue)) by {
        assert(b.subrange(0, 3)[0] == 'z');
    }
    assert(c[0] == 'z');
    let key = compact_key(w);
    assert(key == c);
    assert(key.len() == 23);
    assert(!is_shortcut_key(key)) by {
        assert(!crate::text::starts_with(key, seq!['v', 'v'])) by {
            assert(key.subrange(0, 2)[0] == 'z');
        }
    }
    assert(!crate::text::starts_with(w, seq!['v', 'v'])) by {
        assert(w.subrange(0, 2)[0] == 'z');
    }
}

} // verus!
