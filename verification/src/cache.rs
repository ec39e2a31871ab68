//! Lookup tuning, cache keys and cacheability, the cancellation and time
//! budget decisions of a lookup, and a small most-recently-used cache.
use vstd::prelude::*;
use crate::correction_prefs::{section_name, section_name_vec};
use crate::intent::all_alpha_seq;
use crate::single_char_common::{parse_u64, parse_u64_vec};
use crate::text::{
    chars_of, eq_vec, is_alnum, lines_seq, lines_vec, lower_seq, lower_vec, split_once, split_once_vec,
    starts_with, trim_seq, trim_vec,
};

verus! {

/// Default cache capacities and first-batch budget of a lookup.
pub const DEFAULT_PREFIX_CACHE_CAPACITY: usize = 128;
pub const DEFAULT_FINAL_LOOKUP_CACHE_CAPACITY: usize = 64;
pub const DEFAULT_SHORT_LOOKUP_CACHE_CAPACITY: usize = 128;
pub const DEFAULT_LONG_LOOKUP_SOFT_BUDGET_MS: u64 = 12;
pub const DEFAULT_LONG_LOOKUP_MIN_FIRST_BATCH_CANDIDATES: usize = 9;
/// The most candidates a first batch may ask for.
pub const TSF_MAX_CANDIDATES: usize = 64;

/// Lookup tuning: cache capacities, the soft time budget of a long lookup
/// in milliseconds, and how many candidates its first batch needs.
#[derive(Clone, Copy, Debug)]
pub struct EngineTuning {
    pub prefix_cache_capacity: usize,
    pub final_lookup_cache_capacity: usize,
    pub short_lookup_cache_capacity: usize,
    pub long_lookup_soft_budget_ms: u64,
    pub long_lookup_min_first_batch_candidates: usize,
}

pub open spec fn tuning_view(t: EngineTuning) -> (usize, usize, usize, u64, usize) {
    (
        t.prefix_cache_capacity,
        t.final_lookup_cache_capacity,
        t.short_lookup_cache_capacity,
        t.long_lookup_soft_budget_ms,
        t.long_lookup_min_first_batch_candidates,
    )
}

pub open spec fn default_tuning() -> (usize, usize, usize, u64, usize) {
    (
        DEFAULT_PREFIX_CACHE_CAPACITY,
        DEFAULT_FINAL_LOOKUP_CACHE_CAPACITY,
        DEFAULT_SHORT_LOOKUP_CACHE_CAPACITY,
        DEFAULT_LONG_LOOKUP_SOFT_BUDGET_MS,
        DEFAULT_LONG_LOOKUP_MIN_FIRST_BATCH_CANDIDATES,
    )
}

impl Default for EngineTuning {
    fn default() -> (r: Self)
        ensures
            tuning_view(r) == default_tuning(),
    {
        EngineTuning {
            prefix_cache_capacity: DEFAULT_PREFIX_CACHE_CAPACITY,
            final_lookup_cache_capacity: DEFAULT_FINAL_LOOKUP_CACHE_CAPACITY,
            short_lookup_cache_capacity: DEFAULT_SHORT_LOOKUP_CACHE_CAPACITY,
            long_lookup_soft_budget_ms: DEFAULT_LONG_LOOKUP_SOFT_BUDGET_MS,
            long_lookup_min_first_batch_candidates: DEFAULT_LONG_LOOKUP_MIN_FIRST_BATCH_CANDIDATES,
        }
    }
}

pub open spec fn clamp_int(v: int, lo: int, hi: int) -> int {
    if v < lo {
        lo
    } else if v > hi {
        hi
    } else {
        v
    }
}

/// A setting value: the text before any `;` or `#`, without surrounding
/// whitespace, read as an unsigned integer.
pub open spec fn setting_value(v: Seq<char>) -> Option<u64> {
    let cut = if exists|i: int| 0 <= i < v.len() && (v[i] == ';' || v[i] == '#') {
        let i = choose|i: int|
            0 <= i < v.len() && (v[i] == ';' || v[i] == '#') && forall|k: int|
                0 <= k < i ==> !(v[k] == ';' || v[k] == '#');
        v.take(i)
    } else {
        v
    };
    parse_u64(trim_seq(cut))
}

/// Reading state: the tuning so far and whether the current line is inside
/// the `[engine]` section.
pub type TuningScan = ((usize, usize, usize, u64, usize), bool);

/// One line of the settings text: blank lines and `;` or `#` comments are
/// skipped, a header enters or leaves the section, and inside the section
/// `name = value` sets a known setting to its value clamped to its range
/// (cache capacities 8 to 512, the budget 1 to 50 ms, the first batch 1 to
/// `TSF_MAX_CANDIDATES`); values that are not unsigned integers are ignored.
pub open spec fn tuning_step(st: TuningScan, raw: Seq<char>) -> TuningScan {
    let line = trim_seq(raw);
    let t = st.0;
    if line.len() == 0 || line[0] == ';' || line[0] == '#' {
        st
    } else if line.len() >= 2 && line[0] == '[' && line.last() == ']' {
        (t, section_name(line) == Some(seq!['e', 'n', 'g', 'i', 'n', 'e']))
    } else if !st.1 {
        st
    } else {
        match split_once(line, '=') {
            None => st,
            Some(kv) => match setting_value(kv.1) {
                None => st,
                Some(v) => {
                    let k = lower_seq(trim_seq(kv.0));
                    let cap = clamp_int(v as int, 8, 512) as usize;
                    if k == "prefix_cache_capacity"@ {
                        ((cap, t.1, t.2, t.3, t.4), st.1)
                    } else if k == "final_lookup_cache_capacity"@ {
                        ((t.0, cap, t.2, t.3, t.4), st.1)
                    } else if k == "short_lookup_cache_capacity"@ {
                        ((t.0, t.1, cap, t.3, t.4), st.1)
                    } else if k == "long_lookup_soft_budget_ms"@ {
                        ((t.0, t.1, t.2, clamp_int(v as int, 1, 50) as u64, t.4), st.1)
                    } else if k == "long_lookup_min_first_batch_candidates"@ {
                        ((t.0, t.1, t.2, t.3, clamp_int(v as int, 1, TSF_MAX_CANDIDATES as int) as usize), st.1)
                    } else {
                        st
                    }
                },
            },
        }
    }
}

pub open spec fn tuning_scan(lines: Seq<Seq<char>>) -> TuningScan
    decreases lines.len(),
{
    if lines.len() == 0 {
        (default_tuning(), false)
    } else {
        tuning_step(tuning_scan(lines.drop_last()), lines.last())
    }
}

/// The tuning that a settings text gives, starting from the defaults.
pub open spec fn tuning_of(text: Seq<char>) -> (usize, usize, usize, u64, usize) {
    tuning_scan(lines_seq(text)).0
}

fn setting_value_vec(v: &Vec<char>) -> (r: Option<u64>)
    ensures
        r == setting_value(v@),
{
    let mut i: usize = 0;
    while i < v.len() && v[i] != ';' && v[i] != '#'
        invariant
            i <= v.len(),
            forall|k: int| 0 <= k < i ==> !(v@[k] == ';' || v@[k] == '#'),
        decreases v.len() - i,
    {
        i += 1;
    }
    let ghost has = exists|j: int| 0 <= j < v@.len() && (v@[j] == ';' || v@[j] == '#');
    if i < v.len() {
        let ghost j = choose|j: int|
            0 <= j < v@.len() && (v@[j] == ';' || v@[j] == '#') && forall|k: int|
                0 <= k < j ==> !(v@[k] == ';' || v@[k] == '#');
        assert(v@[i as int] == ';' || v@[i as int] == '#');
        assert(j == i as int) by {
            if j < i {
                assert(!(v@[j] == ';' || v@[j] == '#'));
            } else if j > i {
                assert(!(v@[i as int] == ';' || v@[i as int] == '#'));
            }
        }
    }
    let cut = crate::text::slice_vec(v, 0, i);
    assert(cut@ =~= v@.take(i as int));
    if i == v.len() {
        assert(v@.take(i as int) =~= v@);
    }
    parse_u64_vec(&trim_vec(&cut))
}

fn key_is(k: &Vec<char>, name: &str) -> (r: bool)
    ensures
        r == (k@ == name@),
{
    let n = chars_of(name);
    eq_vec(k, &n)
}

fn clamp_u64(v: u64, lo: u64, hi: u64) -> (r: u64)
    requires
        lo <= hi,
    ensures
        r as int == clamp_int(v as int, lo as int, hi as int),
{
    if v < lo {
        lo
    } else if v > hi {
        hi
    } else {
        v
    }
}

/// One line of the settings text.
fn tuning_line(tuning: EngineTuning, in_section: bool, raw: &Vec<char>) -> (r: (EngineTuning, bool))
    ensures
        (tuning_view(r.0), r.1) == tuning_step((tuning_view(tuning), in_section), raw@),
{
    let mut tuning = tuning;
    let mut in_section = in_section;
    let line = trim_vec(raw);
    if line.len() == 0 || line[0] == ';' || line[0] == '#' {
    } else if line.len() >= 2 && line[0] == '[' && line[line.len() - 1] == ']' {
        match section_name_vec(&line) {
            Some(name) => {
                in_section = eq_vec(&name, &vec!['e', 'n', 'g', 'i', 'n', 'e']);
            },
            None => {},
        }
    } else if in_section {
        match split_once_vec(&line, '=') {
            None => {},
            Some((k, v)) => match setting_value_vec(&v) {
                None => {},
                Some(value) => {
                    let key = lower_vec(&trim_vec(&k));
                    let cap = clamp_u64(value, 8, 512) as usize;
                    if key_is(&key, "prefix_cache_capacity") {
                        tuning.prefix_cache_capacity = cap;
                    } else if key_is(&key, "final_lookup_cache_capacity") {
                        tuning.final_lookup_cache_capacity = cap;
                    } else if key_is(&key, "short_lookup_cache_capacity") {
                        tuning.short_lookup_cache_capacity = cap;
                    } else if key_is(&key, "long_lookup_soft_budget_ms") {
                        tuning.long_lookup_soft_budget_ms = clamp_u64(value, 1, 50);
                    } else if key_is(&key, "long_lookup_min_first_batch_candidates") {
                        tuning.long_lookup_min_first_batch_candidates = clamp_u64(value, 1, TSF_MAX_CANDIDATES as u64)
                            as usize;
                    }
                },
            },
        }
    }
    (tuning, in_section)
}

/// Reads the `[engine]` section of a settings text.
pub fn parse_engine_tuning_ini(text: &str) -> (r: EngineTuning)
    ensures
        tuning_view(r) == tuning_of(text@),
{
    let mut tuning = EngineTuning::default();
    let mut in_section = false;
    let lines = lines_vec(&chars_of(text));
    let ghost ls = lines@.map_values(|v: Vec<char>| v@);
    let mut i: usize = 0;
    while i < lines.len()
        invariant
            i <= lines.len(),
            ls == lines@.map_values(|v: Vec<char>| v@),
            ls == lines_seq(text@),
            (tuning_view(tuning), in_section) == tuning_scan(ls.take(i as int)),
        decreases lines.len() - i,
    {
        assert(ls.take(i + 1).drop_last() =~= ls.take(i as int));
        assert(ls[i as int] == lines@[i as int]@);
        let (t2, in2) = tuning_line(tuning, in_section, &lines[i]);
        tuning = t2;
        in_section = in2;
        i += 1;
    }
    assert(ls.take(lines.len() as int) =~= ls);
    tuning
}

/// The longest key, in characters, whose lookups are cached per clock tick.
pub const SHORT_LOOKUP_CACHE_MAX_INPUT_CHARS: usize = 8;
/// How many of the top phrases a lookup remembers for stability.
pub const LOOKUP_STABILITY_TOP_N: usize = 3;
/// The shortest input, in characters, whose lookup runs on a time budget.
pub const LONG_LOOKUP_SOFT_BUDGET_INPUT_LEN: usize = 6;

/// The key of a cached final lookup: the input, the mode flags and the
/// cache epoch.
#[derive(Clone, Debug, PartialEq, Eq, Hash)]
pub struct FinalLookupCacheKey {
    pub input: String,
    pub mode_flags: u32,
    pub cache_epoch: u64,
}

/// The key of a cached short lookup: the key, the mode flags, the user
/// clock and the cache epoch.
#[derive(Clone, Debug, PartialEq, Eq, Hash)]
pub struct ShortLookupCacheKey {
    pub input: String,
    pub mode_flags: u32,
    pub user_clock: u64,
    pub cache_epoch: u64,
}

pub fn final_lookup_cache_key(raw: &str, mode_flags: u32, cache_epoch: u64) -> (r: FinalLookupCacheKey)
    ensures
        r.input@ == raw@,
        r.mode_flags == mode_flags,
        r.cache_epoch == cache_epoch,
{
    FinalLookupCacheKey { input: raw.to_string(), mode_flags, cache_epoch }
}

pub fn short_lookup_cache_key(compact_key: &str, mode_flags: u32, user_clock: u64, cache_epoch: u64) -> (r:
    ShortLookupCacheKey)
    ensures
        r.input@ == compact_key@,
        r.mode_flags == mode_flags,
        r.user_clock == user_clock,
        r.cache_epoch == cache_epoch,
{
    ShortLookupCacheKey { input: compact_key.to_string(), mode_flags, user_clock, cache_epoch }
}

/// A short lookup is cached when it is not a command, its key is not empty
/// and at most `SHORT_LOOKUP_CACHE_MAX_INPUT_CHARS` long, and it was typed
/// as letters only, one per key character.
pub open spec fn short_cacheable(raw: Seq<char>, compact_key: Seq<char>, shortcut: bool) -> bool {
    !shortcut && compact_key.len() > 0 && compact_key.len() <= SHORT_LOOKUP_CACHE_MAX_INPUT_CHARS && all_alpha_seq(
        raw,
    ) && raw.len() == compact_key.len()
}

pub fn is_short_lookup_cacheable(raw: &str, compact_key: &str, direct_input_shortcut: bool) -> (r: bool)
    ensures
        r == short_cacheable(raw@, compact_key@, direct_input_shortcut),
{
    let r = chars_of(raw);
    let k = chars_of(compact_key);
    let mut all_alpha = true;
    let mut i: usize = 0;
    while i < r.len()
        invariant
            i <= r.len(),
            all_alpha == forall|j: int| 0 <= j < i ==> crate::text::is_alpha(#[trigger] r@[j]),
        decreases r.len() - i,
    {
        if !crate::text::is_alpha_char(r[i]) {
            all_alpha = false;
        }
        i += 1;
    }
    !direct_input_shortcut && k.len() > 0 && k.len() <= SHORT_LOOKUP_CACHE_MAX_INPUT_CHARS && all_alpha && r.len()
        == k.len()
}

pub open spec fn final_cacheable_char(c: char) -> bool {
    is_alnum(c) || c == '\'' || c == ' '
}

/// A final lookup is cached when the input is not empty, not a command, does
/// not start with `vv`, and holds only ASCII letters, digits, apostrophes
/// and spaces.
pub open spec fn final_cacheable(raw: Seq<char>, shortcut: bool) -> bool {
    raw.len() > 0 && !shortcut && !starts_with(raw, seq!['v', 'v']) && forall|i: int|
        0 <= i < raw.len() ==> final_cacheable_char(#[trigger] raw[i])
}

pub fn is_final_lookup_cacheable(raw: &str, direct_input_shortcut: bool) -> (r: bool)
    ensures
        r == final_cacheable(raw@, direct_input_shortcut),
{
    let r = chars_of(raw);
    let vv: Vec<char> = vec!['v', 'v'];
    assert(vv@ =~= seq!['v', 'v']);
    if r.len() == 0 || direct_input_shortcut || crate::text::starts_with_vec(&r, &vv) {
        return false;
    }
    let mut i: usize = 0;
    while i < r.len()
        invariant
            i <= r.len(),
            r@ == raw@,
            forall|j: int| 0 <= j < i ==> final_cacheable_char(#[trigger] r@[j]),
        decreases r.len() - i,
    {
        let c = r[i];
        if !(crate::text::is_alpha_char(c) || crate::text::is_digit_char(c) || c == '\'' || c == ' ') {
            assert(!final_cacheable_char(r@[i as int]));
            return false;
        }
        i += 1;
    }
    true
}

/// What a lookup remembers for stability: its key and its top phrases.
#[derive(Clone, Debug)]
pub struct LookupStabilityState {
    pub key: String,
    pub top_phrases: Vec<String>,
}

/// The stability state of a lookup: its key and its first
/// `LOOKUP_STABILITY_TOP_N` phrases; none without phrases.
pub fn lookup_stability_state_from_candidates(compact_key: &str, phrases: &Vec<String>) -> (r: Option<
    LookupStabilityState,
>)
    ensures
        phrases@.len() == 0 <==> r is None,
        r matches Some(st) ==> st.key@ == compact_key@ && st.top_phrases@.map_values(|s: String| s@)
            == crate::text::prefix_of(phrases@.map_values(|s: String| s@), LOOKUP_STABILITY_TOP_N as int),
{
    let ghost pv = phrases@.map_values(|s: String| s@);
    let mut top: Vec<String> = Vec::new();
    let mut i: usize = 0;
    while i < phrases.len() && i < LOOKUP_STABILITY_TOP_N
        invariant
            i <= phrases.len(),
            i <= LOOKUP_STABILITY_TOP_N,
            pv == phrases@.map_values(|s: String| s@),
            top@.map_values(|s: String| s@) =~= pv.take(i as int),
        decreases phrases.len() - i,
    {
        let ghost before = top@.map_values(|s: String| s@);
        top.push(phrases[i].clone());
        assert(top@.map_values(|s: String| s@) =~= before.push(pv[i as int]));
        assert(pv.take(i + 1) =~= pv.take(i as int).push(pv[i as int]));
        i += 1;
    }
    if top.len() == 0 {
        return None;
    }
    if i == phrases.len() {
        assert(pv.take(i as int) =~= pv);
    }
    Some(LookupStabilityState { key: compact_key.to_string(), top_phrases: top })
}

/// `needle` names at least two of the marks.
pub open spec fn repeated(marks: Seq<Seq<char>>, needle: Seq<char>) -> bool {
    exists|i: int, j: int| 0 <= i < j < marks.len() && marks[i] == needle && marks[j] == needle
}

pub fn repeated_mark(marks: &Vec<String>, needle: &str) -> (r: bool)
    ensures
        r == repeated(marks@.map_values(|s: String| s@), needle@),
{
    let ghost mv = marks@.map_values(|s: String| s@);
    let mut seen: Option<usize> = None;
    let mut i: usize = 0;
    while i < marks.len()
        invariant
            i <= marks.len(),
            mv == marks@.map_values(|s: String| s@),
            seen is None <==> forall|k: int| 0 <= k < i ==> mv[k] != needle@,
            seen matches Some(f) ==> f < i && mv[f as int] == needle@,
            !(exists|a: int, b: int| 0 <= a < b < i && mv[a] == needle@ && mv[b] == needle@),
        decreases marks.len() - i,
    {
        let m = chars_of(marks[i].as_str());
        let n = chars_of(needle);
        assert(mv[i as int] == marks@[i as int]@);
        if eq_vec(&m, &n) {
            match seen {
                Some(f) => {
                    assert(mv[f as int] == needle@ && mv[i as int] == needle@);
                    return true;
                },
                None => {
                    seen = Some(i);
                },
            }
        }
        i += 1;
    }
    false
}

/// The generation counter that lets a newer lookup cancel older ones.
pub struct CancellationState {
    pub latest: u64,
}

impl CancellationState {
    pub fn new() -> (r: Self)
        ensures
            r.latest == 0,
    {
        CancellationState { latest: 0 }
    }

    /// Starts a new generation: one past the latest, skipping zero when the
    /// counter wraps.
    pub fn next_generation(&mut self) -> (r: u64)
        ensures
            r == (if old(self).latest == u64::MAX {
                1
            } else {
                old(self).latest + 1
            }),
            final(self).latest == (if old(self).latest == u64::MAX {
                0
            } else {
                old(self).latest + 1
            }),
    {
        let next = self.latest.wrapping_add(1);
        self.latest = next;
        if next == 0 {
            1
        } else {
            next
        }
    }

    /// Makes `generation` the latest, unless a later one is already known;
    /// generation zero is ignored.
    pub fn publish(&mut self, generation: u64)
        ensures
            final(self).latest == (if generation != 0 && generation > old(self).latest {
                generation
            } else {
                old(self).latest
            }),
    {
        if generation != 0 && generation > self.latest {
            self.latest = generation;
        }
    }

    /// A generation is superseded once a later one is known; generation
    /// zero never is.
    pub fn is_superseded(&self, generation: u64) -> (r: bool)
        ensures
            r == (generation != 0 && self.latest > generation),
    {
        generation != 0 && self.latest > generation
    }
}

/// Publishing a generation supersedes every earlier non-zero one, and never
/// the published one itself.
pub proof fn lemma_publish_supersedes(latest: u64, generation: u64, earlier: u64)
    requires
        generation != 0,
        earlier != 0,
        earlier < generation,
    ensures
        ({
            let after = if generation > latest {
                generation
            } else {
                latest
            };
            after > earlier && (generation >= latest ==> !(after > generation))
        }),
{
}

/// The time budget of a correction pass: four milliseconds for inputs of
/// eight characters or more, ten otherwise; checked every eighth iteration.
pub struct CorrectionWorkBudget {
    pub limit_ms: u64,
    pub cancelled: bool,
}

impl CorrectionWorkBudget {
    pub fn new(input_chars: usize) -> (r: Self)
        ensures
            r.limit_ms == (if input_chars >= 8 {
                4u64
            } else {
                10u64
            }),
            !r.cancelled,
    {
        CorrectionWorkBudget {
            limit_ms: if input_chars >= 8 {
                4
            } else {
                10
            },
            cancelled: false,
        }
    }

    /// Whether to stop at `iteration`, given whether the lookup was
    /// superseded and how long the pass has run.
    pub fn should_stop(&mut self, iteration: usize, superseded: bool, elapsed_ms: u64) -> (r: bool)
        ensures
            r == ((iteration == 0 || iteration % 8 == 0) && (superseded || elapsed_ms >= old(self).limit_ms)),
            final(self).cancelled == (old(self).cancelled || ((iteration == 0 || iteration % 8 == 0)
                && superseded)),
            final(self).limit_ms == old(self).limit_ms,
    {
        if iteration != 0 && iteration % 8 != 0 {
            return false;
        }
        if superseded {
            self.cancelled = true;
            return true;
        }
        elapsed_ms >= self.limit_ms
    }
}

/// The first-batch time budget of a long lookup.
pub struct LookupSoftBudget {
    pub enabled: bool,
    pub limited: bool,
    pub cancelled: bool,
    pub limited_stage: Option<&'static str>,
    pub soft_budget_ms: u64,
    pub min_first_batch_candidates: usize,
}

impl LookupSoftBudget {
    /// A budget that is on for a real request of a long enough input.
    pub fn new(input_chars: usize, disabled: bool, request_id: u64, tuning: &EngineTuning) -> (r: Self)
        ensures
            r.enabled == (request_id != 0 && !disabled && input_chars >= LONG_LOOKUP_SOFT_BUDGET_INPUT_LEN),
            !r.limited && !r.cancelled && r.limited_stage is None,
            r.soft_budget_ms == tuning.long_lookup_soft_budget_ms,
            r.min_first_batch_candidates == tuning.long_lookup_min_first_batch_candidates,
    {
        LookupSoftBudget {
            enabled: request_id != 0 && !disabled && input_chars >= LONG_LOOKUP_SOFT_BUDGET_INPUT_LEN,
            limited: false,
            cancelled: false,
            limited_stage: None,
            soft_budget_ms: tuning.long_lookup_soft_budget_ms,
            min_first_batch_candidates: tuning.long_lookup_min_first_batch_candidates,
        }
    }

    fn note_stage(&mut self, stage: &'static str)
        ensures
            final(self).limited_stage == (match old(self).limited_stage {
                Some(s) => Some(s),
                None => Some(stage),
            }),
            final(self).enabled == old(self).enabled,
            final(self).limited == old(self).limited,
            final(self).cancelled == old(self).cancelled,
            final(self).soft_budget_ms == old(self).soft_budget_ms,
            final(self).min_first_batch_candidates == old(self).min_first_batch_candidates,
    {
        if self.limited_stage.is_none() {
            self.limited_stage = Some(stage);
        }
    }

    /// Whether the lookup should hand back its first batch now: at once when
    /// superseded (and then it is cancelled); otherwise when on, with enough
    /// candidates, once the budget has run out.
    pub fn should_yield(&mut self, superseded: bool, elapsed_ms: u64, candidate_count: usize) -> (r: bool)
        ensures
            r == (superseded || (old(self).enabled && candidate_count >= old(self).min_first_batch_candidates
                && elapsed_ms >= old(self).soft_budget_ms)),
            final(self).limited == (old(self).limited || r),
            final(self).cancelled == (old(self).cancelled || superseded),
            final(self).limited_stage == (if r && old(self).limited_stage is None {
                Some(if superseded {
                    "superseded"
                } else {
                    "candidate_budget"
                })
            } else {
                old(self).limited_stage
            }),
            final(self).enabled == old(self).enabled,
    {
        if superseded {
            self.limited = true;
            self.cancelled = true;
            self.note_stage("superseded");
            return true;
        }
        if !self.enabled || candidate_count < self.min_first_batch_candidates {
            return false;
        }
        if elapsed_ms < self.soft_budget_ms {
            return false;
        }
        self.limited = true;
        self.note_stage("candidate_budget");
        true
    }

    /// Whether to stop one expensive inner loop: when superseded, or when on
    /// and the budget has run out.
    pub fn should_stop_expensive_work(&mut self, stage: &'static str, superseded: bool, elapsed_ms: u64) -> (r:
        bool)
        ensures
            r == (superseded || (old(self).enabled && elapsed_ms >= old(self).soft_budget_ms)),
            final(self).limited == (old(self).limited || r),
            final(self).cancelled == (old(self).cancelled || superseded),
            final(self).limited_stage == (if r && old(self).limited_stage is None {
                Some(if superseded {
                    "superseded"
                } else {
                    stage
                })
            } else {
                old(self).limited_stage
            }),
            final(self).enabled == old(self).enabled,
    {
        if superseded {
            self.limited = true;
            self.cancelled = true;
            self.note_stage("superseded");
            return true;
        }
        if !self.enabled || elapsed_ms < self.soft_budget_ms {
            return false;
        }
        self.limited = true;
        self.note_stage(stage);
        true
    }

    /// Whether to hand back what a stage has so far: when superseded, or
    /// when on, with some candidates, once the budget has run out.
    pub fn should_yield_stage(&mut self, stage: &'static str, superseded: bool, elapsed_ms: u64, candidate_count: usize) -> (r: bool)
        ensures
            r == (superseded || (old(self).enabled && candidate_count != 0 && elapsed_ms >= old(
                self,
            ).soft_budget_ms)),
            final(self).limited == (old(self).limited || r),
            final(self).cancelled == (old(self).cancelled || superseded),
            final(self).enabled == old(self).enabled,
    {
        if superseded {
            self.limited = true;
            self.cancelled = true;
            self.note_stage("superseded");
            return true;
        }
        if !self.enabled || candidate_count == 0 {
            return false;
        }
        if elapsed_ms < self.soft_budget_ms {
            return false;
        }
        self.limited = true;
        self.note_stage(stage);
        true
    }

    /// Whether to put a stage off until after the first batch: when
    /// superseded; otherwise, when on with enough candidates, once already
    /// limited, when entering the first-batch decode, or once the budget has
    /// run out.
    pub fn should_defer_first_batch_stage(
        &mut self,
        stage: &'static str,
        superseded: bool,
        elapsed_ms: u64,
        candidate_count: usize,
    ) -> (r: bool)
        ensures
            r == (superseded || (old(self).enabled && candidate_count >= old(self).min_first_batch_candidates && (
            (old(self).limited && !old(self).cancelled) || stage@ == "first_batch_decode"@ || elapsed_ms >= old(
                self,
            ).soft_budget_ms))),
            final(self).cancelled == (old(self).cancelled || superseded),
            final(self).enabled == old(self).enabled,
            r ==> final(self).limited,
    {
        if superseded {
            self.limited = true;
            self.cancelled = true;
            self.note_stage("superseded");
            return true;
        }
        if !self.enabled || candidate_count < self.min_first_batch_candidates {
            return false;
        }
        if self.limited && !self.cancelled {
            self.note_stage(stage);
            return true;
        }
        let entering_expensive_tail = stage_is(stage, "first_batch_decode");
        if !entering_expensive_tail && elapsed_ms < self.soft_budget_ms {
            return false;
        }
        self.limited = true;
        self.note_stage(stage);
        true
    }

    pub fn was_limited(&self) -> (r: bool)
        ensures
            r == self.limited,
    {
        self.limited
    }

    pub fn was_cancelled(&self) -> (r: bool)
        ensures
            r == self.cancelled,
    {
        self.cancelled
    }
}

fn stage_is(stage: &str, name: &str) -> (r: bool)
    ensures
        r == (stage@ == name@),
{
    eq_vec(&chars_of(stage), &chars_of(name))
}

/// The value of the most recent entry for `key`, when there is one.
pub open spec fn mru_lookup<V>(entries: Seq<(Seq<char>, V)>, key: Seq<char>) -> Option<V>
    decreases entries.len(),
{
    if entries.len() == 0 {
        None
    } else if entries[0].0 == key {
        Some(entries[0].1)
    } else {
        mru_lookup(entries.skip(1), key)
    }
}

pub open spec fn not_key<V>(key: Seq<char>) -> spec_fn((Seq<char>, V)) -> bool {
    |e: (Seq<char>, V)| e.0 != key
}

/// `entries` without those for `key`.
pub open spec fn mru_without<V>(entries: Seq<(Seq<char>, V)>, key: Seq<char>) -> Seq<(Seq<char>, V)> {
    entries.filter(not_key::<V>(key))
}

proof fn lemma_filter_contains<A>(s: Seq<A>, f: spec_fn(A) -> bool, x: A)
    requires
        s.filter(f).contains(x),
    ensures
        s.contains(x),
    decreases s.len(),
{
    if s.len() == 0 {
        s.filter_lemma(f);
    } else {
        let d = s.drop_last();
        assert(s =~= d.push(s.last()));
        d.lemma_filter_push(s.last(), f);
        if x == s.last() {
            assert(s[s.len() - 1] == x);
        } else {
            if f(s.last()) {
                crate::user_lexicon::lemma_contains_push(d.filter(f), s.last(), x);
            }
            lemma_filter_contains(d, f, x);
            let j = choose|j: int| 0 <= j < d.len() && d[j] == x;
            assert(s[j] == x);
        }
    }
}

/// The cache of the expansions of mixed full/initial keys, most recently
/// used first, holding at most `capacity` keys.
pub struct MixedExpansionLruCache {
    order: Vec<(String, Vec<crate::intent::MixedPinyinKeyExpansion>)>,
    capacity: usize,
}

pub type ExpansionEntry = (Seq<char>, Seq<crate::intent::MixedPinyinKeyExpansion>);

pub open spec fn expansion_entries_view(v: Seq<(String, Vec<crate::intent::MixedPinyinKeyExpansion>)>) -> Seq<
    ExpansionEntry,
> {
    v.map_values(|e: (String, Vec<crate::intent::MixedPinyinKeyExpansion>)| (e.0@, e.1@))
}

pub open spec fn keys_unique<V>(entries: Seq<(Seq<char>, V)>) -> bool {
    forall|i: int, j: int| 0 <= i < j < entries.len() ==> (#[trigger] entries[i]).0 != (#[trigger] entries[j]).0
}

impl MixedExpansionLruCache {
    pub closed spec fn entries(&self) -> Seq<ExpansionEntry> {
        expansion_entries_view(self.order@)
    }

    pub closed spec fn cap(&self) -> nat {
        self.capacity as nat
    }

    /// Each key once, no more keys than the capacity, which is at least one.
    pub open spec fn wf(&self) -> bool {
        keys_unique(self.entries()) && self.entries().len() <= self.cap() && self.cap() >= 1
    }

    /// An empty cache for `capacity` keys (at least one).
    pub fn new(capacity: usize) -> (r: Self)
        ensures
            r.wf(),
            r.entries().len() == 0,
            r.cap() == if capacity == 0 {
                1
            } else {
                capacity as nat
            },
    {
        let r = MixedExpansionLruCache {
            order: Vec::new(),
            capacity: if capacity == 0 {
                1
            } else {
                capacity
            },
        };
        assert(r.entries() =~= Seq::<ExpansionEntry>::empty());
        r
    }

    pub fn clear(&mut self)
        requires
            old(self).wf(),
        ensures
            final(self).wf(),
            final(self).entries().len() == 0,
            final(self).cap() == old(self).cap(),
    {
        self.order = Vec::new();
        assert(self.entries() =~= Seq::<ExpansionEntry>::empty());
    }

    fn position(&self, key: &str) -> (r: Option<usize>)
        requires
            self.wf(),
        ensures
            match r {
                Some(i) => i < self.entries().len() && self.entries()[i as int].0 == key@ && forall|k: int|
                    0 <= k < i ==> self.entries()[k].0 != key@,
                None => forall|k: int| 0 <= k < self.entries().len() ==> self.entries()[k].0 != key@,
            },
    {
        let ghost es = self.entries();
        let kc = chars_of(key);
        let mut i: usize = 0;
        while i < self.order.len()
            invariant
                i <= self.order.len(),
                es == self.entries(),
                kc@ == key@,
                forall|k: int| 0 <= k < i ==> es[k].0 != key@,
            decreases self.order.len() - i,
        {
            let c = chars_of(self.order[i].0.as_str());
            assert(es[i as int].0 == self.order@[i as int].0@);
            if eq_vec(&c, &kc) {
                return Some(i);
            }
            i += 1;
        }
        None
    }

    /// The expansions cached for `key`; a hit becomes the most recent entry.
    pub fn get(&mut self, key: &str) -> (r: Option<Vec<crate::intent::MixedPinyinKeyExpansion>>)
        requires
            old(self).wf(),
        ensures
            final(self).wf(),
            final(self).cap() == old(self).cap(),
            match r {
                Some(v) => mru_lookup(old(self).entries(), key@) == Some(v@) && final(self).entries() == seq![
                    (key@, v@),
                ] + mru_without(old(self).entries(), key@),
                None => mru_lookup(old(self).entries(), key@) is None && final(self).entries() == old(
                    self,
                ).entries(),
            },
    {
        let ghost es = self.entries();
        proof {
            lemma_mru_lookup_unique(es, key@);
        }
        match self.position(key) {
            None => None,
            Some(i) => {
                let entry = self.order.remove(i);
                let value = entry.1.clone();
                assert(value@ =~= entry.1@);
                self.order.insert(0, entry);
                proof {
                    lemma_mru_remove_is_without(es, key@, i as int);
                    assert(self.entries() =~= seq![(key@, value@)] + es.remove(i as int));
                }
                Some(value)
            },
        }
    }

    /// Caches `value` for `key` as the most recent entry, dropping the
    /// least recent entries beyond the capacity.
    pub fn put(&mut self, key: String, value: Vec<crate::intent::MixedPinyinKeyExpansion>)
        requires
            old(self).wf(),
        ensures
            final(self).wf(),
            final(self).cap() == old(self).cap(),
            final(self).entries() == crate::text::prefix_of(
                seq![(key@, value@)] + mru_without(old(self).entries(), key@),
                old(self).cap() as int,
            ),
    {
        let ghost es = self.entries();
        let ghost rest = mru_without(es, key@);
        proof {
            lemma_mru_lookup_unique(es, key@);
        }
        match self.position(key.as_str()) {
            Some(i) => {
                self.order.remove(i);
                proof {
                    lemma_mru_remove_is_without(es, key@, i as int);
                }
            },
            None => {
                proof {
                    lemma_mru_absent_is_without(es, key@);
                }
            },
        }
        assert(self.entries() =~= rest);
        let ghost kv = key@;
        let ghost vv = value@;
        self.order.insert(0, (key, value));
        assert(self.entries() =~= seq![(kv, vv)] + rest);
        if self.order.len() > self.capacity {
            self.order.truncate(self.capacity);
        }
        assert(self.entries() =~= crate::text::prefix_of(seq![(kv, vv)] + rest, self.capacity as int));
        proof {
            lemma_without_keys(es, kv);
            let full = seq![(kv, vv)] + rest;
            assert forall|a: int, b: int| 0 <= a < b < self.entries().len() implies (#[trigger] self.entries()[a]).0
                != (#[trigger] self.entries()[b]).0 by {
                assert(self.entries()[a] == full[a] && self.entries()[b] == full[b]);
                if a == 0 {
                    assert(rest[b - 1].0 != kv);
                } else {
                    assert(full[a] == rest[a - 1] && full[b] == rest[b - 1]);
                }
            }
        }
    }
}

proof fn lemma_mru_lookup_unique<V>(es: Seq<(Seq<char>, V)>, key: Seq<char>)
    ensures
        forall|i: int|
            0 <= i < es.len() && es[i].0 == key && (forall|k: int| 0 <= k < i ==> es[k].0 != key) ==> mru_lookup(
                es,
                key,
            ) == Some(es[i].1),
        (forall|k: int| 0 <= k < es.len() ==> es[k].0 != key) ==> mru_lookup(es, key) is None,
    decreases es.len(),
{
    if es.len() > 0 {
        lemma_mru_lookup_unique(es.skip(1), key);
        assert forall|i: int|
            0 <= i < es.len() && es[i].0 == key && (forall|k: int| 0 <= k < i ==> es[k].0 != key) implies mru_lookup(
                es,
                key,
            ) == Some(es[i].1) by {
            if i > 0 {
                assert(es.skip(1)[i - 1] == es[i]);
                assert forall|k: int| 0 <= k < i - 1 implies es.skip(1)[k].0 != key by {
                    assert(es.skip(1)[k] == es[k + 1]);
                }
            }
        }
        if forall|k: int| 0 <= k < es.len() ==> es[k].0 != key {
            assert forall|k: int| 0 <= k < es.skip(1).len() implies es.skip(1)[k].0 != key by {
                assert(es.skip(1)[k] == es[k + 1]);
            }
        }
    }
}

proof fn lemma_mru_absent_is_without<V>(es: Seq<(Seq<char>, V)>, key: Seq<char>)
    requires
        forall|k: int| 0 <= k < es.len() ==> es[k].0 != key,
    ensures
        mru_without(es, key) == es,
    decreases es.len(),
{
    let f = not_key::<V>(key);
    if es.len() > 0 {
        lemma_mru_absent_is_without(es.drop_last(), key);
        assert(es =~= es.drop_last().push(es.last()));
        es.drop_last().lemma_filter_push(es.last(), f);
    } else {
        es.filter_lemma(f);
        assert(es.filter(f) =~= es);
    }
}

proof fn lemma_mru_remove_is_without<V>(es: Seq<(Seq<char>, V)>, key: Seq<char>, i: int)
    requires
        keys_unique(es),
        0 <= i < es.len(),
        es[i].0 == key,
    ensures
        mru_without(es, key) == es.remove(i),
{
    let f = not_key::<V>(key);
    assert(es =~= es.take(i) + seq![es[i]] + es.skip(i + 1));
    assert forall|k: int| 0 <= k < es.take(i).len() implies es.take(i)[k].0 != key by {
        assert(es.take(i)[k] == es[k]);
    }
    let tail = es.skip(i + 1);
    assert forall|k: int| 0 <= k < tail.len() implies (#[trigger] tail[k]).0 != key by {
        assert(tail[k] == es[i + 1 + k]);
    }
    lemma_mru_absent_is_without(es.take(i), key);
    lemma_mru_absent_is_without(es.skip(i + 1), key);
    Seq::filter_distributes_over_add(es.take(i) + seq![es[i]], es.skip(i + 1), f);
    Seq::filter_distributes_over_add(es.take(i), seq![es[i]], f);
    assert(seq![es[i]].filter(f) =~= Seq::<(Seq<char>, V)>::empty()) by {
        Seq::<(Seq<char>, V)>::empty().lemma_filter_push(es[i], f);
        assert(Seq::<(Seq<char>, V)>::empty().push(es[i]) =~= seq![es[i]]);
        Seq::<(Seq<char>, V)>::empty().filter_lemma(f);
    }
    assert(es.remove(i) =~= es.take(i) + es.skip(i + 1));
}

proof fn lemma_without_keys<V>(es: Seq<(Seq<char>, V)>, key: Seq<char>)
    requires
        keys_unique(es),
    ensures
        keys_unique(mru_without(es, key)),
        forall|k: int| 0 <= k < mru_without(es, key).len() ==> (#[trigger] mru_without(es, key)[k]).0 != key,
    decreases es.len(),
{
    let f = not_key::<V>(key);
    let w = mru_without(es, key);
    es.filter_lemma(f);
    if es.len() > 0 {
        let d = es.drop_last();
        assert(keys_unique(d)) by {
            assert forall|a: int, b: int| 0 <= a < b < d.len() implies (#[trigger] d[a]).0 != (#[trigger] d[b]).0 by {
                assert(d[a] == es[a] && d[b] == es[b]);
            }
        }
        lemma_without_keys(d, key);
        assert(es =~= d.push(es.last()));
        d.lemma_filter_push(es.last(), f);
        if f(es.last()) {
            let wd = mru_without(d, key);
            assert forall|a: int| 0 <= a < wd.len() implies (#[trigger] wd[a]).0 != es.last().0 by {
                assert(wd.contains(wd[a]));
                lemma_filter_contains(d, f, wd[a]);
                assert(d.contains(wd[a]));
                let j = choose|j: int| 0 <= j < d.len() && d[j] == wd[a];
                assert(es[j] == d[j]);
                assert(es[es.len() - 1] == es.last());
            }
        }
    }
}

/// A key just cached is found again, with its value.
pub proof fn lemma_put_then_get<V>(es: Seq<(Seq<char>, V)>, key: Seq<char>, value: V, cap: int)
    requires
        cap >= 1,
    ensures
        mru_lookup(crate::text::prefix_of(seq![(key, value)] + mru_without(es, key), cap), key) == Some(value),
{
    let full = seq![(key, value)] + mru_without(es, key);
    let p = crate::text::prefix_of(full, cap);
    assert(p[0] == (key, value));
    assert(p.len() > 0);
}

} // verus!
