//! Late adjustments of the ranked candidate list. Each takes what it reads
//! of the candidates as plain values, one entry per candidate in ranked
//! order (phrase lengths in characters, and flags that the caller computes
//! from the candidates' metadata and scores), and gives the adjusted list
//! as positions into the ranked list; the caller moves its candidates
//! accordingly.
use vstd::prelude::*;
use vstd::multiset::Multiset;
use crate::engine::TSF_PAGE_SIZE;
use crate::correction_prefs::{CorrectionLevel, CorrectionPrefs};
use crate::intent::InputIntent;
use crate::candidate_meta::{CandidateMeta, LexiconLayer};
use vstd::hash_set::StringHashSet;
use crate::text::{all_alpha, all_alpha_vec, chars_of, eq_vec, string_of};
use crate::pagination::{
    append_all, clamp_page, identity, min_int, sat_sub, small_input_candidate_policy,
    SHORT_INPUT_EXACT_FRONT_LIMIT_FOUR, SHORT_INPUT_EXACT_FRONT_LIMIT_THREE, SHORT_INPUT_EXACT_FRONT_LIMIT_TWO,
};
use crate::learning::phrase_char_count;
use crate::text::{count_non_ws, prefix_of};
use crate::three_char::{
    arrange_three_char_intent_page_density, lemma_three_char_density_is_permutation, three_char_density,
    ThreeCharDensityPolicy,
};
use crate::user_lexicon::strs_view;

verus! {

/// The positions below `n` whose flag is `want`, in order.
pub open spec fn flagged(flags: Seq<bool>, n: int, want: bool) -> Seq<usize>
    decreases n,
{
    if n <= 0 {
        Seq::empty()
    } else {
        let p = flagged(flags, n - 1, want);
        if flags[n - 1] == want {
            p.push((n - 1) as usize)
        } else {
            p
        }
    }
}

pub(crate) fn flagged_positions(flags: &Vec<bool>, want: bool) -> (r: Vec<usize>)
    ensures
        r@ == flagged(flags@, flags@.len() as int, want),
{
    let mut out: Vec<usize> = Vec::new();
    let mut i: usize = 0;
    while i < flags.len()
        invariant
            i <= flags.len(),
            out@ == flagged(flags@, i as int, want),
        decreases flags.len() - i,
    {
        if flags[i] == want {
            out.push(i);
        }
        i += 1;
    }
    out
}

pub(crate) fn identity_vec(n: usize) -> (r: Vec<usize>)
    ensures
        r@ == identity(n as nat),
{
    let mut out: Vec<usize> = Vec::new();
    let mut i: usize = 0;
    while i < n
        invariant
            i <= n,
            out@ =~= identity(i as nat),
        decreases n - i,
    {
        out.push(i);
        i += 1;
    }
    out
}

/// The positions with a given flag are increasing, below `n`, and carry
/// that flag.
pub proof fn lemma_flagged_shape(flags: Seq<bool>, n: int, want: bool)
    requires
        0 <= n <= flags.len(),
        flags.len() <= usize::MAX,
    ensures
        forall|i: int, j: int|
            0 <= i < j < flagged(flags, n, want).len() ==> #[trigger] flagged(flags, n, want)[i]
                < #[trigger] flagged(flags, n, want)[j],
        forall|i: int|
            0 <= i < flagged(flags, n, want).len() ==> #[trigger] flagged(flags, n, want)[i] < n && flags[flagged(
                flags,
                n,
                want,
            )[i] as int] == want,
        flagged(flags, n, want).len() <= n,
    decreases n,
{
    if n > 0 {
        lemma_flagged_shape(flags, n - 1, want);
        let p = flagged(flags, n - 1, want);
        if flags[n - 1] == want {
            let r = p.push((n - 1) as usize);
            assert forall|i: int, j: int| 0 <= i < j < r.len() implies #[trigger] r[i] < #[trigger] r[j] by {
                assert(r[i] == p[i]);
                if j < p.len() {
                    assert(r[j] == p[j]);
                }
            }
            assert forall|i: int| 0 <= i < r.len() implies #[trigger] r[i] < n && flags[r[i] as int] == want by {
                if i < p.len() {
                    assert(r[i] == p[i]);
                }
            }
        }
    }
}

/// Every position below `n` has one flag or the other.
pub proof fn lemma_flagged_partition(flags: Seq<bool>, n: int)
    requires
        0 <= n <= flags.len(),
    ensures
        flagged(flags, n, true).to_multiset().add(flagged(flags, n, false).to_multiset()) == identity(
            n as nat,
        ).to_multiset(),
    decreases n,
{
    broadcast use {vstd::seq_lib::group_to_multiset_ensures, vstd::multiset::group_multiset_axioms};

    if n == 0 {
        assert(identity(0) =~= Seq::<usize>::empty());
    } else {
        lemma_flagged_partition(flags, n - 1);
        assert(identity(n as nat) =~= identity((n - 1) as nat).push((n - 1) as usize));
    }
}

/// Whether `i` is a single character that some page must show: the list
/// has no single character among its first `page` entries.
pub open spec fn has_single_within(lens: Seq<usize>, k: int) -> bool {
    exists|i: int| 0 <= i < k && i < lens.len() && lens[i] == 1
}

/// The first position of a single character, when there is one.
pub open spec fn first_single(lens: Seq<usize>) -> Option<int>
    decreases lens.len(),
{
    if lens.len() == 0 {
        None
    } else if lens[0] == 1 {
        Some(0)
    } else {
        match first_single(lens.skip(1)) {
            Some(i) => Some(i + 1),
            None => None,
        }
    }
}

pub proof fn lemma_first_single(lens: Seq<usize>)
    ensures
        match first_single(lens) {
            Some(i) => 0 <= i < lens.len() && lens[i] == 1 && forall|j: int| 0 <= j < i ==> lens[j] != 1,
            None => !has_single_within(lens, lens.len() as int),
        },
    decreases lens.len(),
{
    if lens.len() > 0 && lens[0] != 1 {
        let t = lens.skip(1);
        lemma_first_single(t);
        match first_single(t) {
            Some(i) => {
                assert forall|j: int| 0 <= j < i + 1 implies lens[j] != 1 by {
                    if j > 0 {
                        assert(lens[j] == t[j - 1]);
                    }
                }
            },
            None => {
                assert forall|j: int| 0 <= j < lens.len() implies lens[j] != 1 by {
                    if j > 0 {
                        assert(lens[j] == t[j - 1]);
                    }
                }
            },
        }
    }
}

/// The list with a single character on its first page: when none of the
/// first `page` candidates (the page size clamped to three to nine) is a
/// single character, the first single character moves to the last slot of
/// the first page (or the end of a shorter list).
pub open spec fn single_visible(lens: Seq<usize>, page_size: usize) -> Seq<usize> {
    let n = lens.len() as int;
    let p = clamp_page(page_size);
    if n == 0 || has_single_within(lens, p) {
        identity(lens.len())
    } else {
        match first_single(lens) {
            None => identity(lens.len()),
            Some(pos) => {
                let at = if p - 1 < n - 1 {
                    p - 1
                } else {
                    n - 1
                };
                identity(lens.len()).remove(pos).insert(at, pos as usize)
            },
        }
    }
}

fn first_single_in(lens: &Vec<usize>, k: usize) -> (r: Option<usize>)
    ensures
        match r {
            Some(i) => i < k && i < lens.len() && lens@[i as int] == 1 && forall|j: int| 0 <= j < i ==> lens@[j] != 1,
            None => !has_single_within(lens@, k as int),
        },
{
    let mut i: usize = 0;
    while i < k && i < lens.len()
        invariant
            forall|j: int| 0 <= j < i ==> lens@[j] != 1,
            i <= lens.len(),
        decreases lens.len() - i,
    {
        if lens[i] == 1 {
            return Some(i);
        }
        i += 1;
    }
    None
}

/// Puts a single character on the first page when none is there.
pub fn ensure_single_char_visible_on_first_page(lens: &Vec<usize>, page_size: usize) -> (r: Vec<usize>)
    ensures
        r@ == single_visible(lens@, page_size),
{
    let n = lens.len();
    let p: usize = if page_size < 3 {
        3
    } else if page_size > TSF_PAGE_SIZE {
        TSF_PAGE_SIZE
    } else {
        page_size
    };
    let mut order = identity_vec(n);
    if n == 0 {
        return order;
    }
    if first_single_in(lens, p).is_some() {
        return order;
    }
    match first_single_in(lens, n) {
        None => {
            proof {
                lemma_first_single(lens@);
            }
            order
        },
        Some(pos) => {
            proof {
                lemma_first_single(lens@);
                let c = first_single(lens@).unwrap();
                assert(c == pos as int) by {
                    if c < pos {
                        assert(lens@[c] != 1);
                    }
                    if pos < c {
                        assert(lens@[pos as int] != 1);
                    }
                }
            }
            let v = order.remove(pos);
            let at = if p - 1 < n - 1 {
                p - 1
            } else {
                n - 1
            };
            order.insert(at, v);
            order
        },
    }
}

/// Moving a single character to the first page keeps every candidate.
pub proof fn lemma_single_visible_is_permutation(lens: Seq<usize>, page_size: usize)
    ensures
        single_visible(lens, page_size).to_multiset() == identity(lens.len()).to_multiset(),
{
    broadcast use {vstd::seq_lib::group_to_multiset_ensures, vstd::multiset::group_multiset_axioms};

    let n = lens.len() as int;
    let p = clamp_page(page_size);
    if !(n == 0 || has_single_within(lens, p)) {
        match first_single(lens) {
            None => {},
            Some(pos) => {
                lemma_first_single(lens);
                let id = identity(lens.len());
                let at = if p - 1 < n - 1 {
                    p - 1
                } else {
                    n - 1
                };
                assert(id[pos] == pos as usize);
                id.remove(pos).insert_ensures(at, pos as usize);
                assert(id.remove(pos).insert(at, pos as usize).to_multiset() == id.remove(pos).to_multiset().insert(
                    pos as usize,
                ));
                id.to_multiset_ensures();
            },
        }
    }
}

/// Some candidate of two characters is not a correction.
pub open spec fn has_plain_two_char(lens: Seq<usize>, corrections: Seq<bool>) -> bool {
    exists|i: int| 0 <= i < lens.len() && lens[i] == 2 && !corrections[i]
}

/// The candidates that are not single-character corrections.
pub open spec fn not_single_correction(lens: Seq<usize>, corrections: Seq<bool>) -> Seq<bool> {
    Seq::new(lens.len(), |i: int| !(lens[i] == 1 && corrections[i]))
}

/// For an input that asks for two characters and has a two-character
/// candidate that is not a correction, the single-character corrections
/// leave the list; otherwise nothing changes.
pub open spec fn single_corrections_dropped(lens: Seq<usize>, corrections: Seq<bool>, intent: Option<usize>) -> Seq<
    usize,
> {
    if intent == Some(2usize) && has_plain_two_char(lens, corrections) {
        flagged(not_single_correction(lens, corrections), lens.len() as int, true)
    } else {
        identity(lens.len())
    }
}

/// Drops single-character corrections when two characters are asked for
/// and a plain two-character candidate exists.
pub fn drop_single_char_corrections_for_two_char_intent(
    lens: &Vec<usize>,
    corrections: &Vec<bool>,
    intent_char_count: Option<usize>,
) -> (r: Vec<usize>)
    requires
        lens.len() == corrections.len(),
    ensures
        r@ == single_corrections_dropped(lens@, corrections@, intent_char_count),
{
    let n = lens.len();
    if intent_char_count != Some(2usize) {
        return identity_vec(n);
    }
    let mut found = false;
    let mut i: usize = 0;
    while i < n
        invariant
            i <= n,
            n == lens.len(),
            n == corrections.len(),
            found == exists|j: int| 0 <= j < i && lens@[j] == 2 && !corrections@[j],
        decreases n - i,
    {
        if lens[i] == 2 && !corrections[i] {
            found = true;
        }
        i += 1;
    }
    if !found {
        return identity_vec(n);
    }
    let mut keep: Vec<bool> = Vec::new();
    let mut k: usize = 0;
    while k < n
        invariant
            k <= n,
            n == lens.len(),
            n == corrections.len(),
            keep@ =~= not_single_correction(lens@, corrections@).take(k as int),
        decreases n - k,
    {
        keep.push(!(lens[k] == 1 && corrections[k]));
        k += 1;
    }
    assert(keep@ =~= not_single_correction(lens@, corrections@));
    flagged_positions(&keep, true)
}

/// Dropping corrections keeps the order of the rest: the kept positions
/// increase, and every candidate that is not a single-character correction
/// stays.
pub proof fn lemma_single_corrections_dropped_keeps_order(
    lens: Seq<usize>,
    corrections: Seq<bool>,
    intent: Option<usize>,
)
    requires
        lens.len() == corrections.len(),
        lens.len() <= usize::MAX,
    ensures
        forall|i: int, j: int|
            0 <= i < j < single_corrections_dropped(lens, corrections, intent).len() ==> #[trigger] single_corrections_dropped(
                lens,
                corrections,
                intent,
            )[i] < #[trigger] single_corrections_dropped(lens, corrections, intent)[j],
        forall|k: int|
            0 <= k < lens.len() && #[trigger] not_single_correction(lens, corrections)[k]
                ==> single_corrections_dropped(lens, corrections, intent).contains(k as usize),
{
    let n = lens.len() as int;
    let keep = not_single_correction(lens, corrections);
    let r = single_corrections_dropped(lens, corrections, intent);
    if intent == Some(2usize) && has_plain_two_char(lens, corrections) {
        assert(r == flagged(keep, n, true));
        lemma_flagged_shape(keep, n, true);
        assert forall|k: int| 0 <= k < n && #[trigger] keep[k] implies r.contains(k as usize) by {
            lemma_flagged_has(keep, n, true, k);
        }
    } else {
        assert(r == identity(lens.len()));
        assert forall|k: int| 0 <= k < n && #[trigger] keep[k] implies r.contains(k as usize) by {
            assert(r[k] == k as usize);
        }
        assert forall|i: int, j: int| 0 <= i < j < r.len() implies #[trigger] r[i] < #[trigger] r[j] by {}
    }
}

/// A position below `n` with the flag `want` is among the flagged ones.
pub proof fn lemma_flagged_has(flags: Seq<bool>, n: int, want: bool, k: int)
    requires
        0 <= k < n <= flags.len(),
        flags[k] == want,
    ensures
        flagged(flags, n, want).contains(k as usize),
    decreases n,
{
    if k < n - 1 {
        lemma_flagged_has(flags, n - 1, want, k);
        let p = flagged(flags, n - 1, want);
        let i = choose|i: int| 0 <= i < p.len() && p[i] == k as usize;
        if flags[n - 1] == want {
            assert(p.push((n - 1) as usize)[i] == k as usize);
        }
    } else {
        let p = flagged(flags, n - 1, want);
        assert(p.push((n - 1) as usize)[p.len() as int] == k as usize);
    }
}

/// Outside English input and for more than two candidates, the English
/// words go after the others, and only the first two of them stay.
pub open spec fn english_limited(english: Seq<bool>, intent: InputIntent) -> Seq<usize> {
    let n = english.len() as int;
    if intent == InputIntent::English || n <= 2 {
        identity(english.len())
    } else {
        flagged(english, n, false) + prefix_of(flagged(english, n, true), 2)
    }
}

/// Keeps at most two English words, after the other candidates, unless
/// the input is meant as English.
pub fn limit_english_candidates_for_non_english_intent(english: &Vec<bool>, input_intent: InputIntent) -> (r: Vec<
    usize,
>)
    ensures
        r@ == english_limited(english@, input_intent),
{
    let n = english.len();
    if matches!(input_intent, InputIntent::English) || n <= 2 {
        return identity_vec(n);
    }
    let mut out = flagged_positions(english, false);
    let words = flagged_positions(english, true);
    let mut i: usize = 0;
    let ghost base = out@;
    while i < words.len() && i < 2
        invariant
            i <= words.len(),
            i <= 2,
            out@ =~= base + words@.take(i as int),
        decreases words.len() - i,
    {
        out.push(words[i]);
        assert(words@.take(i + 1) =~= words@.take(i as int).push(words@[i as int]));
        i += 1;
    }
    assert(words@.take(i as int) =~= prefix_of(words@, 2));
    out
}

/// The English limit drops nothing but English words beyond the first two,
/// and lists no candidate twice.
pub proof fn lemma_english_limited_is_selection(english: Seq<bool>, intent: InputIntent)
    ensures
        english_limited(english, intent).to_multiset().subset_of(identity(english.len()).to_multiset()),
        forall|k: int| 0 <= k < english.len() && !#[trigger] english[k] ==> english_limited(english, intent).contains(k as usize),
{
    broadcast use {vstd::seq_lib::group_to_multiset_ensures, vstd::multiset::group_multiset_axioms};

    let n = english.len() as int;
    if !(intent == InputIntent::English || n <= 2) {
        let a = flagged(english, n, false);
        let b = flagged(english, n, true);
        lemma_flagged_partition(english, n);
        let bt = prefix_of(b, 2);
        assert(b =~= bt + b.skip(bt.len() as int));
        vstd::seq_lib::lemma_multiset_commutative(bt, b.skip(bt.len() as int));
        vstd::seq_lib::lemma_multiset_commutative(a, bt);
        assert forall|x: usize| #[trigger] (a + bt).to_multiset().count(x) <= identity(english.len()).to_multiset().count(x) by {
            assert(b.to_multiset().count(x) >= bt.to_multiset().count(x));
        }
        assert forall|k: int| 0 <= k < n && !#[trigger] english[k] implies (a + bt).contains(k as usize) by {
            lemma_flagged_has(english, n, false, k);
            let i = choose|i: int| 0 <= i < a.len() && a[i] == k as usize;
            assert((a + bt)[i] == k as usize);
        }
    } else {
        assert forall|k: int| 0 <= k < n && !#[trigger] english[k] implies identity(english.len()).contains(k as usize) by {
            assert(identity(english.len())[k] == k as usize);
        }
    }
}

/// The longest phrase that makes a confident exact top candidate, below
/// which corrections are not moved.
pub const CONFIDENT_LONG_EXACT_MIN_CHARS: usize = 5;

/// After a confident long exact candidate (a full-pinyin top candidate of
/// at least five characters), the corrections far below it (`demote`) move
/// behind the first page of the other candidates, in their order.
pub open spec fn corrections_demoted(lens: Seq<usize>, top_full_pinyin: bool, demote: Seq<bool>) -> Seq<usize> {
    let n = lens.len() as int;
    if n == 0 || lens[0] < CONFIDENT_LONG_EXACT_MIN_CHARS || !top_full_pinyin {
        identity(lens.len())
    } else {
        let normal = flagged(demote, n, false);
        let corr = flagged(demote, n, true);
        let at = if normal.len() < TSF_PAGE_SIZE {
            normal.len() as int
        } else {
            TSF_PAGE_SIZE as int
        };
        normal.take(at) + corr + normal.skip(at)
    }
}

/// Moves the corrections that score far below a confident long exact top
/// candidate behind the first page.
pub fn demote_corrections_after_confident_long_exact(lens: &Vec<usize>, top_full_pinyin: bool, demote: &Vec<bool>) -> (r:
    Vec<usize>)
    requires
        lens.len() == demote.len(),
    ensures
        r@ == corrections_demoted(lens@, top_full_pinyin, demote@),
{
    let n = lens.len();
    if n == 0 || lens[0] < CONFIDENT_LONG_EXACT_MIN_CHARS || !top_full_pinyin {
        return identity_vec(n);
    }
    let normal = flagged_positions(demote, false);
    let corr = flagged_positions(demote, true);
    let at = if normal.len() < TSF_PAGE_SIZE {
        normal.len()
    } else {
        TSF_PAGE_SIZE
    };
    let mut out: Vec<usize> = Vec::new();
    let mut i: usize = 0;
    while i < at
        invariant
            i <= at <= normal.len(),
            out@ =~= normal@.take(i as int),
        decreases at - i,
    {
        out.push(normal[i]);
        assert(normal@.take(i + 1) =~= normal@.take(i as int).push(normal@[i as int]));
        i += 1;
    }
    let mut j: usize = 0;
    while j < corr.len()
        invariant
            j <= corr.len(),
            out@ =~= normal@.take(at as int) + corr@.take(j as int),
        decreases corr.len() - j,
    {
        out.push(corr[j]);
        assert(corr@.take(j + 1) =~= corr@.take(j as int).push(corr@[j as int]));
        j += 1;
    }
    assert(corr@.take(corr.len() as int) =~= corr@);
    let mut k: usize = at;
    while k < normal.len()
        invariant
            at <= k <= normal.len(),
            out@ =~= normal@.take(at as int) + corr@ + normal@.subrange(at as int, k as int),
        decreases normal.len() - k,
    {
        out.push(normal[k]);
        k += 1;
    }
    assert(normal@.subrange(at as int, normal.len() as int) =~= normal@.skip(at as int));
    out
}

/// Demoting corrections keeps every candidate.
pub proof fn lemma_corrections_demoted_is_permutation(lens: Seq<usize>, top_full_pinyin: bool, demote: Seq<bool>)
    requires
        lens.len() == demote.len(),
    ensures
        corrections_demoted(lens, top_full_pinyin, demote).to_multiset() == identity(lens.len()).to_multiset(),
{
    broadcast use {vstd::seq_lib::group_to_multiset_ensures, vstd::multiset::group_multiset_axioms};

    let n = lens.len() as int;
    if !(n == 0 || lens[0] < CONFIDENT_LONG_EXACT_MIN_CHARS || !top_full_pinyin) {
        let normal = flagged(demote, n, false);
        let corr = flagged(demote, n, true);
        lemma_flagged_partition(demote, n);
        let at = if normal.len() < TSF_PAGE_SIZE {
            normal.len() as int
        } else {
            TSF_PAGE_SIZE as int
        };
        assert(normal =~= normal.take(at) + normal.skip(at));
        vstd::seq_lib::lemma_multiset_commutative(normal.take(at), normal.skip(at));
        vstd::seq_lib::lemma_multiset_commutative(normal.take(at), corr);
        vstd::seq_lib::lemma_multiset_commutative(normal.take(at) + corr, normal.skip(at));
        assert((normal.take(at) + corr + normal.skip(at)).to_multiset() =~= corr.to_multiset().add(normal.to_multiset()));
    }
}

/// How many exact candidates without a strong signal (user priority or a
/// high lexicon frequency) may lead the first page of a short input.
pub const SHORT_INPUT_LOW_FREQ_EXACT_FRONT_LIMIT: usize = 2;

/// The groups of a short input in list order: the exact candidates that
/// lead the first page, the exact candidates that come later, the shorter
/// candidates that join the first page, and the rest; and how many weak
/// exact candidates lead.
pub type DensityGroups = (Seq<usize>, Seq<usize>, Seq<usize>, Seq<usize>, nat);

pub open spec fn density_groups(
    lens: Seq<usize>,
    strong: Seq<bool>,
    n: int,
    intent: usize,
    exact_limit: usize,
    short_slots: usize,
) -> DensityGroups
    decreases n,
{
    if n <= 0 {
        (Seq::empty(), Seq::empty(), Seq::empty(), Seq::empty(), 0)
    } else {
        let g = density_groups(lens, strong, n - 1, intent, exact_limit, short_slots);
        let len = lens[n - 1];
        let i = (n - 1) as usize;
        if len == intent {
            if g.0.len() < exact_limit && (strong[n - 1] || g.4 < SHORT_INPUT_LOW_FREQ_EXACT_FRONT_LIMIT) {
                (g.0.push(i), g.1, g.2, g.3, if strong[n - 1] {
                    g.4
                } else {
                    g.4 + 1
                })
            } else {
                (g.0, g.1.push(i), g.2, g.3, g.4)
            }
        } else if 0 < len < intent && g.2.len() < short_slots {
            (g.0, g.1, g.2.push(i), g.3, g.4)
        } else {
            (g.0, g.1, g.2, g.3.push(i), g.4)
        }
    }
}

/// The most exact candidates that lead the first page, by the asked length.
pub open spec fn exact_front_limit_for(intent: usize) -> usize {
    if intent == 2 {
        SHORT_INPUT_EXACT_FRONT_LIMIT_TWO
    } else if intent == 3 {
        SHORT_INPUT_EXACT_FRONT_LIMIT_THREE
    } else {
        SHORT_INPUT_EXACT_FRONT_LIMIT_FOUR
    }
}

/// The first page of an input that asks for two to four characters: the
/// leading exact candidates (up to the limit, and only a few without a
/// strong signal), the shorter candidates (one, or two for three
/// characters), then the rest up to the end of the page; after the page,
/// the other exact candidates, then the rest. Other inputs, and lists of one
/// candidate or none, stay as they are.
pub open spec fn short_input_density(lens: Seq<usize>, strong: Seq<bool>, intent: Option<usize>, page_size: usize) -> Seq<
    usize,
> {
    match intent {
        None => identity(lens.len()),
        Some(ic) => if !(2 <= ic <= 4) || lens.len() <= 1 {
            identity(lens.len())
        } else {
            let p = clamp_page(page_size);
            let g = density_groups(
                lens,
                strong,
                lens.len() as int,
                ic,
                exact_front_limit_for(ic),
                if ic == 3 {
                    2
                } else {
                    1
                },
            );
            let fill = min_int(sat_sub(p, (g.0.len() + g.2.len()) as int), g.3.len() as int);
            g.0 + g.2 + g.3.take(fill) + g.1 + g.3.skip(fill)
        },
    }
}

fn density_groups_vec(lens: &Vec<usize>, strong: &Vec<bool>, intent: usize, exact_limit: usize, short_slots: usize) -> (r: (
    Vec<usize>,
    Vec<usize>,
    Vec<usize>,
    Vec<usize>,
))
    requires
        lens.len() == strong.len(),
    ensures
        ({
            let g = density_groups(lens@, strong@, lens@.len() as int, intent, exact_limit, short_slots);
            r.0@ == g.0 && r.1@ == g.1 && r.2@ == g.2 && r.3@ == g.3
        }),
        r.0.len() <= exact_limit,
        r.2.len() <= short_slots,
{
    let mut exact_front: Vec<usize> = Vec::new();
    let mut exact_later: Vec<usize> = Vec::new();
    let mut short_front: Vec<usize> = Vec::new();
    let mut rest: Vec<usize> = Vec::new();
    let mut low: usize = 0;
    let mut i: usize = 0;
    while i < lens.len()
        invariant
            i <= lens.len(),
            lens.len() == strong.len(),
            low <= i,
            exact_front.len() <= exact_limit,
            short_front.len() <= short_slots,
            ({
                let g = density_groups(lens@, strong@, i as int, intent, exact_limit, short_slots);
                exact_front@ == g.0 && exact_later@ == g.1 && short_front@ == g.2 && rest@ == g.3 && low == g.4
            }),
        decreases lens.len() - i,
    {
        let len = lens[i];
        if len == intent {
            if exact_front.len() < exact_limit && (strong[i] || low < SHORT_INPUT_LOW_FREQ_EXACT_FRONT_LIMIT) {
                if !strong[i] {
                    low += 1;
                }
                exact_front.push(i);
            } else {
                exact_later.push(i);
            }
        } else if 0 < len && len < intent && short_front.len() < short_slots {
            short_front.push(i);
        } else {
            rest.push(i);
        }
        i += 1;
    }
    (exact_front, exact_later, short_front, rest)
}

/// Arranges the first page of an input that asks for two to four
/// characters; `strong` marks the exact candidates with user priority or a
/// high lexicon frequency.
pub fn limit_short_input_first_page_density(
    lens: &Vec<usize>,
    strong: &Vec<bool>,
    intent_char_count: Option<usize>,
    page_size: usize,
) -> (r: Vec<usize>)
    requires
        lens.len() == strong.len(),
    ensures
        r@ == short_input_density(lens@, strong@, intent_char_count, page_size),
{
    let n = lens.len();
    let ic = match intent_char_count {
        None => {
            return identity_vec(n);
        },
        Some(ic) => ic,
    };
    if !(2 <= ic && ic <= 4) || n <= 1 {
        return identity_vec(n);
    }
    let policy = match small_input_candidate_policy(ic, page_size) {
        Some(p) => p,
        None => {
            return identity_vec(n);
        },
    };
    let page = policy.page_size;
    let (exact_front, exact_later, short_front, rest) = density_groups_vec(
        lens,
        strong,
        ic,
        policy.exact_front_limit,
        policy.shorter_front_slots,
    );
    let used = exact_front.len() + short_front.len();
    let room: usize = if page > used {
        page - used
    } else {
        0
    };
    let fill = if room < rest.len() {
        room
    } else {
        rest.len()
    };
    let mut out: Vec<usize> = Vec::new();
    append_all(&mut out, &exact_front, 0, exact_front.len());
    append_all(&mut out, &short_front, 0, short_front.len());
    append_all(&mut out, &rest, 0, fill);
    append_all(&mut out, &exact_later, 0, exact_later.len());
    append_all(&mut out, &rest, fill, rest.len());
    assert(exact_front@.subrange(0, exact_front@.len() as int) =~= exact_front@);
    assert(short_front@.subrange(0, short_front@.len() as int) =~= short_front@);
    assert(rest@.subrange(0, fill as int) =~= rest@.take(fill as int));
    assert(exact_later@.subrange(0, exact_later@.len() as int) =~= exact_later@);
    assert(rest@.subrange(fill as int, rest@.len() as int) =~= rest@.skip(fill as int));
    out
}

proof fn lemma_density_groups_ms(
    lens: Seq<usize>,
    strong: Seq<bool>,
    n: int,
    intent: usize,
    exact_limit: usize,
    short_slots: usize,
)
    requires
        0 <= n <= lens.len(),
    ensures
        ({
            let g = density_groups(lens, strong, n, intent, exact_limit, short_slots);
            g.0.to_multiset().add(g.1.to_multiset()).add(g.2.to_multiset()).add(g.3.to_multiset()) == identity(
                n as nat,
            ).to_multiset()
        }),
    decreases n,
{
    broadcast use {vstd::seq_lib::group_to_multiset_ensures, vstd::multiset::group_multiset_axioms};

    if n == 0 {
        assert(identity(0) =~= Seq::<usize>::empty());
    } else {
        lemma_density_groups_ms(lens, strong, n - 1, intent, exact_limit, short_slots);
        assert(identity(n as nat) =~= identity((n - 1) as nat).push((n - 1) as usize));
        let g = density_groups(lens, strong, n - 1, intent, exact_limit, short_slots);
        let h = density_groups(lens, strong, n, intent, exact_limit, short_slots);
        let i = (n - 1) as usize;
        assert(h.0.to_multiset().add(h.1.to_multiset()).add(h.2.to_multiset()).add(h.3.to_multiset())
            =~= g.0.to_multiset().add(g.1.to_multiset()).add(g.2.to_multiset()).add(g.3.to_multiset()).insert(i));
    }
}

/// The short-input first page keeps every candidate, each once.
pub proof fn lemma_short_input_density_is_permutation(
    lens: Seq<usize>,
    strong: Seq<bool>,
    intent: Option<usize>,
    page_size: usize,
)
    requires
        lens.len() == strong.len(),
    ensures
        short_input_density(lens, strong, intent, page_size).to_multiset() == identity(lens.len()).to_multiset(),
{
    broadcast use {vstd::seq_lib::group_to_multiset_ensures, vstd::multiset::group_multiset_axioms};

    match intent {
        None => {},
        Some(ic) => {
            if 2 <= ic <= 4 && lens.len() > 1 {
                let p = clamp_page(page_size);
                let sl: usize = if ic == 3 {
                    2
                } else {
                    1
                };
                let g = density_groups(lens, strong, lens.len() as int, ic, exact_front_limit_for(ic), sl);
                lemma_density_groups_ms(lens, strong, lens.len() as int, ic, exact_front_limit_for(ic), sl);
                let fill = min_int(sat_sub(p, (g.0.len() + g.2.len()) as int), g.3.len() as int);
                assert(g.3 =~= g.3.take(fill) + g.3.skip(fill));
                vstd::seq_lib::lemma_multiset_commutative(g.3.take(fill), g.3.skip(fill));
                vstd::seq_lib::lemma_multiset_commutative(g.0, g.2);
                vstd::seq_lib::lemma_multiset_commutative(g.0 + g.2, g.3.take(fill));
                vstd::seq_lib::lemma_multiset_commutative(g.0 + g.2 + g.3.take(fill), g.1);
                vstd::seq_lib::lemma_multiset_commutative(g.0 + g.2 + g.3.take(fill) + g.1, g.3.skip(fill));
                assert((g.0 + g.2 + g.3.take(fill) + g.1 + g.3.skip(fill)).to_multiset() =~= g.0.to_multiset().add(
                    g.1.to_multiset(),
                ).add(g.2.to_multiset()).add(g.3.to_multiset()));
            }
        },
    }
}

/// The length in characters (white space not counted) of each phrase.
pub open spec fn char_counts(phrases: Seq<Seq<char>>) -> Seq<usize> {
    phrases.map_values(|p: Seq<char>| count_non_ws(p) as usize)
}

/// Of at most the asked length (and not empty).
pub open spec fn is_short_len(c: usize, intent: usize) -> bool {
    1 <= c <= intent
}

/// An overlong prediction that may show on a page that shows none yet: a
/// four-character phrase for three asked characters, or a pinned longer
/// phrase.
pub open spec fn allowed_prediction(c: usize, pinned: bool, intent: usize, visible_overlong: bool) -> bool {
    !visible_overlong && ((intent == 3 && c == 4) || (pinned && c > intent))
}

/// The first index at or after `start` in `order` whose candidate `f`
/// accepts.
pub open spec fn first_from(order: Seq<usize>, start: int, f: spec_fn(usize) -> bool) -> Option<int>
    decreases order.len() - start,
{
    if start < 0 || start >= order.len() {
        None
    } else if f(order[start]) {
        Some(start)
    } else {
        first_from(order, start + 1, f)
    }
}

pub proof fn lemma_first_from(order: Seq<usize>, start: int, f: spec_fn(usize) -> bool)
    ensures
        match first_from(order, start, f) {
            Some(j) => 0 <= start <= j < order.len() && f(order[j]) && forall|k: int| start <= k < j ==> !f(#[trigger] order[k]),
            None => forall|k: int| 0 <= start <= k < order.len() ==> !f(#[trigger] order[k]),
        },
    decreases order.len() - start,
{
    if 0 <= start < order.len() && !f(order[start]) {
        lemma_first_from(order, start + 1, f);
    }
}

pub open spec fn len_is(lens: Seq<usize>, c: usize) -> spec_fn(usize) -> bool {
    |i: usize| lens[i as int] == c
}

pub open spec fn pinned_overlong(lens: Seq<usize>, pinned: Seq<bool>, intent: usize) -> spec_fn(usize) -> bool {
    |i: usize| pinned[i as int] && lens[i as int] > intent
}

pub open spec fn acceptable(lens: Seq<usize>, pinned: Seq<bool>, intent: usize, vo: bool) -> spec_fn(usize) -> bool {
    |i: usize| is_short_len(lens[i as int], intent) || allowed_prediction(lens[i as int], pinned[i as int], intent, vo)
}

/// The first candidate of the asked length moves to the front when the
/// top candidate is longer than asked, or when it scores close to the top
/// candidate (`exact_competitive`) and the top candidate is not a
/// correction.
pub open spec fn exact_moved_front(
    lens: Seq<usize>,
    intent: usize,
    top_is_correction: bool,
    exact_competitive: bool,
) -> Seq<usize> {
    let id = identity(lens.len());
    match first_from(id, 0, len_is(lens, intent)) {
        Some(e) => if e > 0 && (lens[0] > intent || (exact_competitive && !top_is_correction)) {
            seq![e as usize] + id.remove(e)
        } else {
            id
        },
        None => id,
    }
}

/// The phrase that may stay although it is longer than asked: the first
/// pinned longer phrase, else, for three asked characters, the first
/// four-character phrase.
pub open spec fn exception_phrase(
    phrases: Seq<Seq<char>>,
    lens: Seq<usize>,
    pinned: Seq<bool>,
    intent: usize,
    order: Seq<usize>,
) -> Option<Seq<char>> {
    match first_from(order, 0, pinned_overlong(lens, pinned, intent)) {
        Some(k) => Some(phrases[order[k] as int]),
        None => if intent == 3 {
            match first_from(order, 0, len_is(lens, 4)) {
                Some(k) => Some(phrases[order[k] as int]),
                None => None,
            }
        } else {
            None
        },
    }
}

/// How many candidates below `n` are of at most the asked length.
pub open spec fn short_count(lens: Seq<usize>, intent: usize, n: int) -> nat
    decreases n,
{
    if n <= 0 {
        0
    } else {
        short_count(lens, intent, n - 1) + if is_short_len(lens[n - 1], intent) {
            1nat
        } else {
            0nat
        }
    }
}

pub open spec fn kept_when_sparse(
    phrases: Seq<Seq<char>>,
    lens: Seq<usize>,
    intent: usize,
    exception: Option<Seq<char>>,
) -> spec_fn(usize) -> bool {
    |i: usize| is_short_len(lens[i as int], intent) || exception == Some(phrases[i as int])
}

/// When the short candidates (and the exception) cannot fill a page, the
/// other overlong candidates leave.
pub open spec fn sparse_filtered(
    phrases: Seq<Seq<char>>,
    lens: Seq<usize>,
    pinned: Seq<bool>,
    intent: usize,
    page: int,
    order: Seq<usize>,
) -> Seq<usize> {
    let exception = exception_phrase(phrases, lens, pinned, intent, order);
    let extra: nat = if exception is Some {
        1
    } else {
        0
    };
    if short_count(lens, intent, lens.len() as int) + extra < page {
        order.filter(kept_when_sparse(phrases, lens, intent, exception))
    } else {
        order
    }
}

/// The first page, slot by slot from `index`: a short candidate, or an
/// allowed prediction while no overlong one shows, stays; otherwise the
/// next such candidate after it takes its slot, or, when there is none, it
/// leaves the list.
pub open spec fn page_fixed(
    lens: Seq<usize>,
    pinned: Seq<bool>,
    intent: usize,
    page: int,
    order: Seq<usize>,
    index: int,
    vo: bool,
) -> Seq<usize>
    decreases order.len() - index,
{
    if index < 0 || index >= page || index >= order.len() {
        order
    } else {
        let x = order[index];
        if acceptable(lens, pinned, intent, vo)(x) {
            page_fixed(lens, pinned, intent, page, order, index + 1, vo || lens[x as int] > intent)
        } else {
            match first_from(order, index + 1, acceptable(lens, pinned, intent, vo)) {
                None => page_fixed(lens, pinned, intent, page, order.remove(index), index, vo),
                Some(j) => {
                    proof {
                        lemma_first_from(order, index + 1, acceptable(lens, pinned, intent, vo));
                        order.remove(j).insert_ensures(index, order[j]);
                    }
                    let y = order[j];
                    page_fixed(
                        lens,
                        pinned,
                        intent,
                        page,
                        order.remove(j).insert(index, y),
                        index + 1,
                        vo || lens[y as int] > intent,
                    )
                },
            }
        }
    }
}

/// The visible page of a short intent of two or three characters: the
/// first candidate of that length may move to the front; overlong
/// candidates leave when the short ones cannot fill a page; the first page
/// holds short candidates and at most one allowed prediction; finally a
/// single character is brought onto the first page. Other intents, and lists
/// of one candidate or none, stay as they are.
pub open spec fn short_intent_visible_page(
    phrases: Seq<Seq<char>>,
    pinned: Seq<bool>,
    top_is_correction: bool,
    exact_competitive: bool,
    intent: usize,
    page_size: usize,
) -> Seq<usize> {
    let lens = char_counts(phrases);
    if phrases.len() <= 1 || !(intent == 2 || intent == 3) {
        identity(phrases.len())
    } else {
        let p = clamp_page(page_size);
        let o1 = exact_moved_front(lens, intent, top_is_correction, exact_competitive);
        let o2 = sparse_filtered(phrases, lens, pinned, intent, p, o1);
        let o3 = page_fixed(lens, pinned, intent, p, o2, 0, false);
        single_visible(o3.map_values(|i: usize| lens[i as int]), page_size).map_values(|k: usize| o3[k as int])
    }
}

fn first_acceptable(order: &Vec<usize>, start: usize, lens: &Vec<usize>, pinned: &Vec<bool>, intent: usize, vo: bool) -> (r:
    Option<usize>)
    requires
        lens.len() == pinned.len(),
        forall|k: int| 0 <= k < order.len() ==> #[trigger] order@[k] < lens.len(),
    ensures
        match r {
            Some(j) => first_from(order@, start as int, acceptable(lens@, pinned@, intent, vo)) == Some(j as int),
            None => first_from(order@, start as int, acceptable(lens@, pinned@, intent, vo)) is None,
        },
{
    let ghost f = acceptable(lens@, pinned@, intent, vo);
    let mut i = start;
    while i < order.len()
        invariant
            start <= i,
            lens.len() == pinned.len(),
            forall|k: int| 0 <= k < order.len() ==> #[trigger] order@[k] < lens.len(),
            f == acceptable(lens@, pinned@, intent, vo),
            first_from(order@, start as int, f) == first_from(order@, i as int, f),
        decreases order.len() - i,
    {
        let x = order[i];
        let c = lens[x];
        if (1 <= c && c <= intent) || (!vo && ((intent == 3 && c == 4) || (pinned[x] && c > intent))) {
            return Some(i);
        }
        i += 1;
    }
    None
}

fn first_with_len(order: &Vec<usize>, lens: &Vec<usize>, c: usize) -> (r: Option<usize>)
    requires
        forall|k: int| 0 <= k < order.len() ==> #[trigger] order@[k] < lens.len(),
    ensures
        match r {
            Some(j) => first_from(order@, 0, len_is(lens@, c)) == Some(j as int),
            None => first_from(order@, 0, len_is(lens@, c)) is None,
        },
{
    let ghost f = len_is(lens@, c);
    let mut i: usize = 0;
    while i < order.len()
        invariant
            forall|k: int| 0 <= k < order.len() ==> #[trigger] order@[k] < lens.len(),
            f == len_is(lens@, c),
            first_from(order@, 0, f) == first_from(order@, i as int, f),
        decreases order.len() - i,
    {
        if lens[order[i]] == c {
            return Some(i);
        }
        i += 1;
    }
    None
}

fn first_pinned_overlong(order: &Vec<usize>, lens: &Vec<usize>, pinned: &Vec<bool>, intent: usize) -> (r: Option<
    usize,
>)
    requires
        lens.len() == pinned.len(),
        forall|k: int| 0 <= k < order.len() ==> #[trigger] order@[k] < lens.len(),
    ensures
        match r {
            Some(j) => first_from(order@, 0, pinned_overlong(lens@, pinned@, intent)) == Some(j as int),
            None => first_from(order@, 0, pinned_overlong(lens@, pinned@, intent)) is None,
        },
{
    let ghost f = pinned_overlong(lens@, pinned@, intent);
    let mut i: usize = 0;
    while i < order.len()
        invariant
            lens.len() == pinned.len(),
            forall|k: int| 0 <= k < order.len() ==> #[trigger] order@[k] < lens.len(),
            f == pinned_overlong(lens@, pinned@, intent),
            first_from(order@, 0, f) == first_from(order@, i as int, f),
        decreases order.len() - i,
    {
        let x = order[i];
        if pinned[x] && lens[x] > intent {
            return Some(i);
        }
        i += 1;
    }
    None
}

/// The positions of `single_visible` are positions of the list.
pub proof fn lemma_single_visible_bounds(lens: Seq<usize>, page_size: usize)
    requires
        lens.len() <= usize::MAX,
    ensures
        single_visible(lens, page_size).len() == lens.len(),
        forall|k: int| 0 <= k < lens.len() ==> #[trigger] single_visible(lens, page_size)[k] < lens.len(),
{
    let n = lens.len() as int;
    let p = clamp_page(page_size);
    let id = identity(lens.len());
    if !(n == 0 || has_single_within(lens, p)) {
        lemma_first_single(lens);
        match first_single(lens) {
            None => {},
            Some(pos) => {
                let at = if p - 1 < n - 1 {
                    p - 1
                } else {
                    n - 1
                };
                let r = id.remove(pos);
                r.insert_ensures(at, pos as usize);
                assert forall|k: int| 0 <= k < n implies #[trigger] r.insert(at, pos as usize)[k] < lens.len() by {
                    if k < at {
                        assert(r.insert(at, pos as usize)[k] == r[k]);
                    } else if k > at {
                        assert(r.insert(at, pos as usize)[k] == r[k - 1]);
                    }
                }
            },
        }
    }
}

fn char_counts_vec(phrases: &Vec<String>) -> (r: Vec<usize>)
    ensures
        r@ == char_counts(strs_view(phrases@)),
{
    let ghost ls = char_counts(strs_view(phrases@));
    let mut lens: Vec<usize> = Vec::new();
    let mut i: usize = 0;
    while i < phrases.len()
        invariant
            i <= phrases.len(),
            ls == char_counts(strs_view(phrases@)),
            lens@ =~= ls.take(i as int),
        decreases phrases.len() - i,
    {
        let c = phrase_char_count(phrases[i].as_str());
        lens.push(c);
        assert(ls.take(i + 1) =~= ls.take(i as int).push(c));
        i += 1;
    }
    assert(lens@ =~= ls);
    lens
}

fn move_exact_front(lens: &Vec<usize>, intent: usize, top_is_correction: bool, exact_competitive: bool) -> (r: Vec<usize>)
    requires
        lens.len() > 0,
    ensures
        r@ == exact_moved_front(lens@, intent, top_is_correction, exact_competitive),
        forall|k: int| 0 <= k < r.len() ==> #[trigger] r@[k] < lens.len(),
{
    let n = lens.len();
    let id = identity_vec(n);
    let mut order = identity_vec(n);
    assert forall|k: int| 0 <= k < id.len() implies #[trigger] id@[k] < lens.len() by {}
    match first_with_len(&id, lens, intent) {
        Some(e) => {
            proof {
                lemma_first_from(id@, 0, len_is(lens@, intent));
            }
            if e > 0 && (lens[0] > intent || (exact_competitive && !top_is_correction)) {
                let v = order.remove(e);
                order.insert(0, v);
                assert(order@ =~= seq![e] + id@.remove(e as int));
                assert forall|k: int| 0 <= k < order.len() implies #[trigger] order@[k] < lens.len() by {
                    if k > 0 {
                        assert(order@[k] == id@.remove(e as int)[k - 1]);
                        if k - 1 < e {
                            assert(id@.remove(e as int)[k - 1] == id@[k - 1]);
                        } else {
                            assert(id@.remove(e as int)[k - 1] == id@[k]);
                        }
                    }
                }
            }
        },
        None => {},
    }
    order
}

fn exception_index(order: &Vec<usize>, lens: &Vec<usize>, pinned: &Vec<bool>, intent: usize, ps: Ghost<Seq<Seq<char>>>) -> (r:
    Option<usize>)
    requires
        lens.len() == pinned.len(),
        forall|k: int| 0 <= k < order.len() ==> #[trigger] order@[k] < lens.len(),
    ensures
        match r {
            Some(x) => x < lens.len() && exception_phrase(ps@, lens@, pinned@, intent, order@) == Some(ps@[x as int]),
            None => exception_phrase(ps@, lens@, pinned@, intent, order@) is None,
        },
{
    match first_pinned_overlong(order, lens, pinned, intent) {
        Some(k) => {
            proof {
                lemma_first_from(order@, 0, pinned_overlong(lens@, pinned@, intent));
            }
            Some(order[k])
        },
        None => if intent == 3 {
            match first_with_len(order, lens, 4) {
                Some(k) => {
                    proof {
                        lemma_first_from(order@, 0, len_is(lens@, 4));
                    }
                    Some(order[k])
                },
                None => None,
            }
        } else {
            None
        },
    }
}

fn short_total(lens: &Vec<usize>, intent: usize) -> (r: usize)
    ensures
        r as nat == short_count(lens@, intent, lens.len() as int),
        r <= lens.len(),
{
    let mut shorts: usize = 0;
    let mut j: usize = 0;
    while j < lens.len()
        invariant
            j <= lens.len(),
            shorts <= j,
            shorts as nat == short_count(lens@, intent, j as int),
        decreases lens.len() - j,
    {
        if 1 <= lens[j] && lens[j] <= intent {
            shorts += 1;
        }
        j += 1;
    }
    shorts
}

fn sparse_filter(
    phrases: &Vec<String>,
    lens: &Vec<usize>,
    pinned: &Vec<bool>,
    intent: usize,
    page: usize,
    order: Vec<usize>,
) -> (r: Vec<usize>)
    requires
        lens.len() == pinned.len(),
        lens.len() == phrases.len(),
        lens@ == char_counts(strs_view(phrases@)),
        forall|k: int| 0 <= k < order.len() ==> #[trigger] order@[k] < lens.len(),
    ensures
        r@ == sparse_filtered(strs_view(phrases@), lens@, pinned@, intent, page as int, order@),
        forall|k: int| 0 <= k < r.len() ==> #[trigger] r@[k] < lens.len(),
{
    let ghost ps = strs_view(phrases@);
    let ghost ls = lens@;
    let exception = exception_index(&order, lens, pinned, intent, Ghost(ps));
    let ghost exc = exception_phrase(ps, ls, pinned@, intent, order@);
    let shorts = short_total(lens, intent);
    let extra: usize = if exception.is_some() {
        1
    } else {
        0
    };
    if !(shorts < page && extra < page - shorts) {
        return order;
    }
    let ghost o1 = order@;
    let ghost f = kept_when_sparse(ps, ls, intent, exc);
    let mut kept: Vec<usize> = Vec::new();
    let mut t: usize = 0;
    while t < order.len()
        invariant
            t <= order.len(),
            order@ == o1,
            lens.len() == phrases.len(),
            lens@ == ls,
            ps == strs_view(phrases@),
            f == kept_when_sparse(ps, ls, intent, exc),
            forall|k: int| 0 <= k < order.len() ==> #[trigger] order@[k] < lens.len(),
            match exception {
                Some(x) => x < lens.len() && exc == Some(ps[x as int]),
                None => exc is None,
            },
            kept@ == o1.take(t as int).filter(f),
            forall|k: int| 0 <= k < kept.len() ==> #[trigger] kept@[k] < lens.len(),
        decreases order.len() - t,
    {
        let x = order[t];
        proof {
            assert(o1.take(t + 1) =~= o1.take(t as int).push(x));
            o1.take(t as int).lemma_filter_push(x, f);
        }
        let same = match exception {
            Some(e) => phrases[x] == phrases[e],
            None => false,
        };
        if (1 <= lens[x] && lens[x] <= intent) || same {
            kept.push(x);
        }
        t += 1;
    }
    assert(o1.take(order.len() as int) =~= o1);
    kept
}

fn visible_after_fix(lens: &Vec<usize>, fixed: &Vec<usize>, page_size: usize) -> (r: Vec<usize>)
    requires
        forall|k: int| 0 <= k < fixed.len() ==> #[trigger] fixed@[k] < lens.len(),
    ensures
        r@ == single_visible(fixed@.map_values(|i: usize| lens@[i as int]), page_size).map_values(
            |k: usize| fixed@[k as int],
        ),
{
    let ghost o3 = fixed@;
    let mut fixed_lens: Vec<usize> = Vec::new();
    let mut u: usize = 0;
    while u < fixed.len()
        invariant
            u <= fixed.len(),
            forall|k: int| 0 <= k < fixed.len() ==> #[trigger] fixed@[k] < lens.len(),
            fixed_lens@ =~= fixed@.map_values(|i: usize| lens@[i as int]).take(u as int),
        decreases fixed.len() - u,
    {
        fixed_lens.push(lens[fixed[u]]);
        u += 1;
    }
    assert(fixed_lens@ =~= o3.map_values(|i: usize| lens@[i as int]));
    let moved = ensure_single_char_visible_on_first_page(&fixed_lens, page_size);
    proof {
        lemma_single_visible_bounds(fixed_lens@, page_size);
    }
    let mut out: Vec<usize> = Vec::new();
    let mut w: usize = 0;
    while w < moved.len()
        invariant
            w <= moved.len(),
            moved.len() == fixed.len(),
            forall|k: int| 0 <= k < moved.len() ==> #[trigger] moved@[k] < fixed.len(),
            out@ =~= moved@.map_values(|k: usize| o3[k as int]).take(w as int),
            o3 == fixed@,
        decreases moved.len() - w,
    {
        out.push(fixed[moved[w]]);
        w += 1;
    }
    assert(out@ =~= moved@.map_values(|k: usize| o3[k as int]));
    out
}

/// Keeps the first page of a two- or three-character intent free of
/// ordinary overlong predictions; `pinned` marks the pinned candidates,
/// `top_is_correction` tells whether the top candidate is a correction, and
/// `exact_competitive` whether the first candidate of the asked length
/// scores close to the top one.
pub fn enforce_short_intent_visible_page(
    phrases: &Vec<String>,
    pinned: &Vec<bool>,
    top_is_correction: bool,
    exact_competitive: bool,
    intent_chars: usize,
    page_size: usize,
) -> (r: Vec<usize>)
    requires
        phrases.len() == pinned.len(),
    ensures
        r@ == short_intent_visible_page(
            strs_view(phrases@),
            pinned@,
            top_is_correction,
            exact_competitive,
            intent_chars,
            page_size,
        ),
{
    let n = phrases.len();
    if n <= 1 || !(intent_chars == 2 || intent_chars == 3) {
        return identity_vec(n);
    }
    let page: usize = if page_size < 3 {
        3
    } else if page_size > TSF_PAGE_SIZE {
        TSF_PAGE_SIZE
    } else {
        page_size
    };
    let lens = char_counts_vec(phrases);
    let moved = move_exact_front(&lens, intent_chars, top_is_correction, exact_competitive);
    let kept = sparse_filter(phrases, &lens, pinned, intent_chars, page, moved);
    let fixed = fix_page(&lens, pinned, intent_chars, page, kept);
    visible_after_fix(&lens, &fixed, page_size)
}

/// Fixes the first page slot by slot, as `page_fixed` says.
fn fix_page(lens: &Vec<usize>, pinned: &Vec<bool>, intent: usize, page: usize, order: Vec<usize>) -> (r: Vec<usize>)
    requires
        lens.len() == pinned.len(),
        forall|k: int| 0 <= k < order.len() ==> #[trigger] order@[k] < lens.len(),
    ensures
        r@ == page_fixed(lens@, pinned@, intent, page as int, order@, 0, false),
        forall|k: int| 0 <= k < r.len() ==> #[trigger] r@[k] < lens.len(),
{
    let ghost goal = page_fixed(lens@, pinned@, intent, page as int, order@, 0, false);
    let mut order = order;
    let mut index: usize = 0;
    let mut vo = false;
    while index < page && index < order.len()
        invariant
            lens.len() == pinned.len(),
            forall|k: int| 0 <= k < order.len() ==> #[trigger] order@[k] < lens.len(),
            goal == page_fixed(lens@, pinned@, intent, page as int, order@, index as int, vo),
        decreases order.len() - index,
    {
        let x = order[index];
        let c = lens[x];
        if (1 <= c && c <= intent) || (!vo && ((intent == 3 && c == 4) || (pinned[x] && c > intent))) {
            vo = vo || c > intent;
            index += 1;
        } else {
            match first_acceptable(&order, index + 1, lens, pinned, intent, vo) {
                None => {
                    let ghost before = order@;
                    order.remove(index);
                    assert(order@ =~= before.remove(index as int));
                    assert forall|k: int| 0 <= k < order.len() implies #[trigger] order@[k] < lens.len() by {
                        if k < index {
                            assert(order@[k] == before[k]);
                        } else {
                            assert(order@[k] == before[k + 1]);
                        }
                    }
                },
                Some(j) => {
                    let ghost before = order@;
                    proof {
                        lemma_first_from(before, index + 1, acceptable(lens@, pinned@, intent, vo));
                    }
                    let y = order.remove(j);
                    order.insert(index, y);
                    assert(order@ =~= before.remove(j as int).insert(index as int, y));
                    assert forall|k: int| 0 <= k < order.len() implies #[trigger] order@[k] < lens.len() by {
                        let rm = before.remove(j as int);
                        rm.insert_ensures(index as int, y);
                        if k < index {
                            assert(order@[k] == rm[k]);
                        } else if k > index {
                            assert(order@[k] == rm[k - 1]);
                        }
                        if k != index {
                            let kk = if k < index {
                                k
                            } else {
                                k - 1
                            };
                            if kk < j {
                                assert(rm[kk] == before[kk]);
                            } else {
                                assert(rm[kk] == before[kk + 1]);
                            }
                        }
                    }
                    vo = vo || lens[y] > intent;
                    index += 1;
                },
            }
        }
    }
    order
}

proof fn lemma_filter_ms_subset(s: Seq<usize>, f: spec_fn(usize) -> bool)
    ensures
        s.filter(f).to_multiset().subset_of(s.to_multiset()),
        forall|x: usize| #[trigger] s.contains(x) && f(x) ==> s.filter(f).contains(x),
    decreases s.len(),
{
    broadcast use {vstd::seq_lib::group_to_multiset_ensures, vstd::multiset::group_multiset_axioms};

    if s.len() == 0 {
        assert(s.filter(f) =~= Seq::<usize>::empty()) by {
            s.lemma_filter_len(f);
        }
    } else {
        let d = s.drop_last();
        lemma_filter_ms_subset(d, f);
        assert(s =~= d.push(s.last()));
        d.lemma_filter_push(s.last(), f);
        assert forall|x: usize| #[trigger] s.contains(x) && f(x) implies s.filter(f).contains(x) by {
            if x == s.last() {
                assert(s.filter(f) == d.filter(f).push(x));
                assert(s.filter(f)[d.filter(f).len() as int] == x);
            } else {
                let i = choose|i: int| 0 <= i < s.len() && s[i] == x;
                assert(i < d.len());
                assert(d[i] == x);
                assert(d.contains(x));
                if f(s.last()) {
                    let j = choose|j: int| 0 <= j < d.filter(f).len() && d.filter(f)[j] == x;
                    assert(s.filter(f)[j] == x);
                }
            }
        }
    }
}

/// Fixing the page drops only candidates longer than asked, and moves the
/// others.
proof fn lemma_page_fixed_keeps(
    lens: Seq<usize>,
    pinned: Seq<bool>,
    intent: usize,
    page: int,
    order: Seq<usize>,
    index: int,
    vo: bool,
)
    ensures
        page_fixed(lens, pinned, intent, page, order, index, vo).to_multiset().subset_of(order.to_multiset()),
        page_fixed(lens, pinned, intent, page, order, index, vo).len() <= order.len(),
        forall|x: usize|
            #[trigger] order.contains(x) && is_short_len(lens[x as int], intent) ==> page_fixed(
                lens,
                pinned,
                intent,
                page,
                order,
                index,
                vo,
            ).contains(x),
    decreases order.len() - index,
{
    broadcast use {vstd::seq_lib::group_to_multiset_ensures, vstd::multiset::group_multiset_axioms};

    if !(index < 0 || index >= page || index >= order.len()) {
        let x = order[index];
        let f = acceptable(lens, pinned, intent, vo);
        if f(x) {
            lemma_page_fixed_keeps(lens, pinned, intent, page, order, index + 1, vo || lens[x as int] > intent);
        } else {
            lemma_first_from(order, index + 1, f);
            match first_from(order, index + 1, f) {
                None => {
                    let o = order.remove(index);
                    lemma_page_fixed_keeps(lens, pinned, intent, page, o, index, vo);
                    assert(o.to_multiset() == order.to_multiset().remove(x));
                    assert forall|y: usize| #[trigger] order.contains(y) && is_short_len(lens[y as int], intent) implies o.contains(y) by {
                        assert(y != x);
                        assert(order.to_multiset().count(y) > 0);
                        assert(o.to_multiset().count(y) == order.to_multiset().count(y));
                    }
                },
                Some(j) => {
                    let y = order[j];
                    let rm = order.remove(j);
                    let o = rm.insert(index, y);
                    rm.insert_ensures(index, y);
                    lemma_page_fixed_keeps(lens, pinned, intent, page, o, index + 1, vo || lens[y as int] > intent);
                    assert(rm.to_multiset() == order.to_multiset().remove(y));
                    assert(o.to_multiset() == rm.to_multiset().insert(y));
                    assert(o.to_multiset() =~= order.to_multiset());
                    assert forall|z: usize| #[trigger] order.contains(z) && is_short_len(lens[z as int], intent) implies o.contains(z) by {
                        assert(order.to_multiset().count(z) > 0);
                    }
                },
            }
        }
    }
}

proof fn lemma_moved_map(o: Seq<usize>, pos: int, at: int)
    requires
        0 <= pos < o.len(),
        0 <= at < o.len(),
        o.len() <= usize::MAX,
    ensures
        identity(o.len()).remove(pos).insert(at, pos as usize).map_values(|k: usize| o[k as int]) == o.remove(
            pos,
        ).insert(at, o[pos]),
{
    let id = identity(o.len());
    let a = id.remove(pos);
    a.insert_ensures(at, pos as usize);
    let b = o.remove(pos);
    b.insert_ensures(at, o[pos]);
    let l = a.insert(at, pos as usize).map_values(|k: usize| o[k as int]);
    let r = b.insert(at, o[pos]);
    assert forall|k: int| 0 <= k < l.len() implies l[k] == r[k] by {
        if k < at {
            if k < pos {
                assert(a[k] == k as usize);
            } else {
                assert(a[k] == (k + 1) as usize);
            }
        } else if k > at {
            if k - 1 < pos {
                assert(a[k - 1] == (k - 1) as usize);
            } else {
                assert(a[k - 1] == k as usize);
            }
        }
    }
    assert(l =~= r);
}

proof fn lemma_visible_after_fix_keeps(lens: Seq<usize>, o: Seq<usize>, page_size: usize)
    requires
        o.len() <= usize::MAX,
    ensures
        ({
            let r = single_visible(o.map_values(|i: usize| lens[i as int]), page_size).map_values(
                |k: usize| o[k as int],
            );
            r.to_multiset() == o.to_multiset()
        }),
{
    broadcast use {vstd::seq_lib::group_to_multiset_ensures, vstd::multiset::group_multiset_axioms};

    let l4 = o.map_values(|i: usize| lens[i as int]);
    let n = l4.len() as int;
    let p = clamp_page(page_size);
    let sv = single_visible(l4, page_size);
    if n == 0 || has_single_within(l4, p) || first_single(l4) is None {
        assert(sv.map_values(|k: usize| o[k as int]) =~= o);
    } else {
        lemma_first_single(l4);
        let pos = first_single(l4).unwrap();
        let at = if p - 1 < n - 1 {
            p - 1
        } else {
            n - 1
        };
        lemma_moved_map(o, pos, at);
        let rm = o.remove(pos);
        assert(rm.to_multiset() == o.to_multiset().remove(o[pos]));
        assert(rm.insert(at, o[pos]).to_multiset() == rm.to_multiset().insert(o[pos]));
        assert(rm.insert(at, o[pos]).to_multiset() =~= o.to_multiset());
    }
}

/// Keeping the visible page short loses no candidate of at most the asked
/// length, and lists no candidate twice or one that was not there.
pub proof fn lemma_short_intent_page_keeps_short(
    phrases: Seq<Seq<char>>,
    pinned: Seq<bool>,
    top_is_correction: bool,
    exact_competitive: bool,
    intent: usize,
    page_size: usize,
)
    requires
        phrases.len() == pinned.len(),
        phrases.len() <= usize::MAX,
    ensures
        short_intent_visible_page(phrases, pinned, top_is_correction, exact_competitive, intent, page_size).to_multiset().subset_of(
            identity(phrases.len()).to_multiset(),
        ),
        forall|i: int|
            0 <= i < phrases.len() && is_short_len(#[trigger] char_counts(phrases)[i], intent)
                ==> short_intent_visible_page(phrases, pinned, top_is_correction, exact_competitive, intent, page_size).contains(
                i as usize,
            ),
{
    broadcast use {vstd::seq_lib::group_to_multiset_ensures, vstd::multiset::group_multiset_axioms};

    let lens = char_counts(phrases);
    let n = phrases.len() as int;
    let id = identity(phrases.len());
    let r = short_intent_visible_page(phrases, pinned, top_is_correction, exact_competitive, intent, page_size);
    if phrases.len() <= 1 || !(intent == 2 || intent == 3) {
        assert forall|i: int| 0 <= i < n && is_short_len(#[trigger] lens[i], intent) implies r.contains(i as usize) by {
            assert(r[i] == i as usize);
        }
    } else {
        let p = clamp_page(page_size);
        let o1 = exact_moved_front(lens, intent, top_is_correction, exact_competitive);
        lemma_first_from(id, 0, len_is(lens, intent));
        assert(o1.to_multiset() == id.to_multiset()) by {
            match first_from(id, 0, len_is(lens, intent)) {
                Some(e) => {
                    if o1 != id {
                        assert(id.remove(e).to_multiset() == id.to_multiset().remove(id[e]));
                        vstd::seq_lib::lemma_multiset_commutative(seq![e as usize], id.remove(e));
                        assert(o1.to_multiset() =~= id.to_multiset());
                    }
                },
                None => {},
            }
        }
        let o2 = sparse_filtered(phrases, lens, pinned, intent, p, o1);
        let exc = exception_phrase(phrases, lens, pinned, intent, o1);
        lemma_filter_ms_subset(o1, kept_when_sparse(phrases, lens, intent, exc));
        let o3 = page_fixed(lens, pinned, intent, p, o2, 0, false);
        lemma_page_fixed_keeps(lens, pinned, intent, p, o2, 0, false);
        o1.lemma_filter_len(kept_when_sparse(phrases, lens, intent, exc));
        assert(o1.len() == n) by {
            assert(o1.to_multiset().len() == id.to_multiset().len());
        }
        assert(o3.len() <= usize::MAX);
        lemma_visible_after_fix_keeps(lens, o3, page_size);
        assert forall|i: int| 0 <= i < n && is_short_len(#[trigger] lens[i], intent) implies r.contains(i as usize) by {
            assert(id[i] == i as usize);
            assert(id.to_multiset().count(i as usize) > 0);
            assert(o1.contains(i as usize));
            let f = kept_when_sparse(phrases, lens, intent, exc);
            assert(o2.contains(i as usize));
            assert(o3.contains(i as usize));
            assert(o3.to_multiset().count(i as usize) > 0);
            assert(r.to_multiset().count(i as usize) > 0);
        }
    }
}

/// How many candidates one character longer than asked the final layout
/// keeps, for two and for three asked characters.
pub const SHORT_INTENT_TOTAL_EXPANSION_LIMIT: usize = 2;
pub const SHORT_INTENT_THREE_CHAR_EXPANSION_LIMIT: usize = 2;

/// The groups of the final layout in list order: leading exact candidates,
/// later exact candidates, candidates one character short, shorter ones,
/// the first expansions (one character longer, up to the limit), and how
/// many weak exact candidates lead; other candidates are dropped.
pub type FinalGroups = (Seq<usize>, Seq<usize>, Seq<usize>, Seq<usize>, Seq<usize>, nat);

pub open spec fn final_groups(
    lens: Seq<usize>,
    strong: Seq<bool>,
    n: int,
    intent: usize,
    exact_limit: usize,
    expansion_limit: usize,
) -> FinalGroups
    decreases n,
{
    if n <= 0 {
        (Seq::empty(), Seq::empty(), Seq::empty(), Seq::empty(), Seq::empty(), 0)
    } else {
        let g = final_groups(lens, strong, n - 1, intent, exact_limit, expansion_limit);
        let len = lens[n - 1];
        let i = (n - 1) as usize;
        if len == intent {
            if g.0.len() < exact_limit && (strong[n - 1] || g.5 < SHORT_INPUT_LOW_FREQ_EXACT_FRONT_LIMIT) {
                (g.0.push(i), g.1, g.2, g.3, g.4, if strong[n - 1] {
                    g.5
                } else {
                    g.5 + 1
                })
            } else {
                (g.0, g.1.push(i), g.2, g.3, g.4, g.5)
            }
        } else if 0 < len < intent {
            if len + 1 == intent {
                (g.0, g.1, g.2.push(i), g.3, g.4, g.5)
            } else {
                (g.0, g.1, g.2, g.3.push(i), g.4, g.5)
            }
        } else if len == intent + 1 && g.4.len() < expansion_limit {
            (g.0, g.1, g.2, g.3, g.4.push(i), g.5)
        } else {
            g
        }
    }
}

pub open spec fn expansion_limit_for(intent: usize) -> usize {
    if intent == 2 {
        SHORT_INTENT_TOTAL_EXPANSION_LIMIT
    } else if intent == 3 {
        SHORT_INTENT_THREE_CHAR_EXPANSION_LIMIT
    } else {
        0
    }
}

/// The grouped final layout: the leading exact candidates, the shorter
/// candidates that fit on the first page beside them and the expansions,
/// the later exact candidates, the expansions, then the other shorter
/// candidates.
pub open spec fn final_grouped(lens: Seq<usize>, strong: Seq<bool>, intent: usize, page: int) -> Seq<usize> {
    let g = final_groups(
        lens,
        strong,
        lens.len() as int,
        intent,
        exact_front_limit_for(intent),
        expansion_limit_for(intent),
    );
    let shorter = g.2 + g.3;
    let cap = min_int(sat_sub(sat_sub(page, g.0.len() as int), g.4.len() as int), shorter.len() as int);
    g.0 + shorter.take(cap) + g.1 + g.4 + shorter.skip(cap)
}

/// The final layout of an input that asks for two to four characters:
/// the grouped layout, and for three characters then the three-character
/// page layout under `pol`. Other inputs, and lists of one candidate or
/// none, stay as they are.
pub open spec fn final_short_intent_density(
    lens: Seq<usize>,
    strong: Seq<bool>,
    intent: Option<usize>,
    page_size: usize,
    pol: ThreeCharDensityPolicy,
) -> Seq<usize> {
    match intent {
        None => identity(lens.len()),
        Some(ic) => if !(2 <= ic <= 4) || lens.len() <= 1 {
            identity(lens.len())
        } else {
            let r1 = final_grouped(lens, strong, ic, clamp_page(page_size));
            if ic == 3 {
                three_char_density(r1.map_values(|i: usize| lens[i as int]), page_size, pol).map_values(
                    |k: usize| r1[k as int],
                )
            } else {
                r1
            }
        },
    }
}

fn final_groups_vec(lens: &Vec<usize>, strong: &Vec<bool>, intent: usize, exact_limit: usize, expansion_limit: usize) -> (r: (
    Vec<usize>,
    Vec<usize>,
    Vec<usize>,
    Vec<usize>,
    Vec<usize>,
))
    requires
        lens.len() == strong.len(),
        intent < usize::MAX,
    ensures
        ({
            let g = final_groups(lens@, strong@, lens@.len() as int, intent, exact_limit, expansion_limit);
            r.0@ == g.0 && r.1@ == g.1 && r.2@ == g.2 && r.3@ == g.3 && r.4@ == g.4
        }),
        r.0.len() <= exact_limit,
        r.4.len() <= expansion_limit,
        all_below(r.0@, lens.len() as int),
        all_below(r.1@, lens.len() as int),
        all_below(r.2@, lens.len() as int),
        all_below(r.3@, lens.len() as int),
        all_below(r.4@, lens.len() as int),
{
    let mut exact_front: Vec<usize> = Vec::new();
    let mut exact_later: Vec<usize> = Vec::new();
    let mut near: Vec<usize> = Vec::new();
    let mut far: Vec<usize> = Vec::new();
    let mut expansion: Vec<usize> = Vec::new();
    let mut low: usize = 0;
    let mut i: usize = 0;
    while i < lens.len()
        invariant
            i <= lens.len(),
            lens.len() == strong.len(),
            intent < usize::MAX,
            low <= i,
            exact_front.len() <= exact_limit,
            expansion.len() <= expansion_limit,
            all_below(exact_front@, i as int),
            all_below(exact_later@, i as int),
            all_below(near@, i as int),
            all_below(far@, i as int),
            all_below(expansion@, i as int),
            ({
                let g = final_groups(lens@, strong@, i as int, intent, exact_limit, expansion_limit);
                exact_front@ == g.0 && exact_later@ == g.1 && near@ == g.2 && far@ == g.3 && expansion@ == g.4
                    && low == g.5
            }),
        decreases lens.len() - i,
    {
        let len = lens[i];
        if len == intent {
            if exact_front.len() < exact_limit && (strong[i] || low < SHORT_INPUT_LOW_FREQ_EXACT_FRONT_LIMIT) {
                if !strong[i] {
                    low += 1;
                }
                exact_front.push(i);
            } else {
                exact_later.push(i);
            }
        } else if 0 < len && len < intent {
            if len + 1 == intent {
                near.push(i);
            } else {
                far.push(i);
            }
        } else if len == intent + 1 && expansion.len() < expansion_limit {
            expansion.push(i);
        }
        i += 1;
    }
    (exact_front, exact_later, near, far, expansion)
}

fn map_positions(order: &Vec<usize>, inner: &Vec<usize>) -> (r: Vec<usize>)
    requires
        forall|k: int| 0 <= k < inner.len() ==> #[trigger] inner@[k] < order.len(),
    ensures
        r@ == inner@.map_values(|k: usize| order@[k as int]),
{
    let ghost o = order@;
    let mut out: Vec<usize> = Vec::new();
    let mut w: usize = 0;
    while w < inner.len()
        invariant
            w <= inner.len(),
            o == order@,
            forall|k: int| 0 <= k < inner.len() ==> #[trigger] inner@[k] < order.len(),
            out@ =~= inner@.map_values(|k: usize| o[k as int]).take(w as int),
        decreases inner.len() - w,
    {
        out.push(order[inner[w]]);
        w += 1;
    }
    assert(out@ =~= inner@.map_values(|k: usize| o[k as int]));
    out
}

fn lens_at(lens: &Vec<usize>, order: &Vec<usize>) -> (r: Vec<usize>)
    requires
        forall|k: int| 0 <= k < order.len() ==> #[trigger] order@[k] < lens.len(),
    ensures
        r@ == order@.map_values(|i: usize| lens@[i as int]),
{
    let mut out: Vec<usize> = Vec::new();
    let mut u: usize = 0;
    while u < order.len()
        invariant
            u <= order.len(),
            forall|k: int| 0 <= k < order.len() ==> #[trigger] order@[k] < lens.len(),
            out@ =~= order@.map_values(|i: usize| lens@[i as int]).take(u as int),
        decreases order.len() - u,
    {
        out.push(lens[order[u]]);
        u += 1;
    }
    assert(out@ =~= order@.map_values(|i: usize| lens@[i as int]));
    out
}

/// Every entry of `s` is below `n`.
pub open spec fn all_below(s: Seq<usize>, n: int) -> bool {
    forall|k: int| 0 <= k < s.len() ==> #[trigger] s[k] < n
}

proof fn lemma_below_concat(a: Seq<usize>, b: Seq<usize>, n: int)
    requires
        all_below(a, n),
        all_below(b, n),
    ensures
        all_below(a + b, n),
{
    assert forall|k: int| 0 <= k < (a + b).len() implies #[trigger] (a + b)[k] < n by {
        if k < a.len() {
            assert((a + b)[k] == a[k]);
        } else {
            assert((a + b)[k] == b[k - a.len()]);
        }
    }
}

proof fn lemma_below_subrange(a: Seq<usize>, i: int, j: int, n: int)
    requires
        all_below(a, n),
        0 <= i <= j <= a.len(),
    ensures
        all_below(a.subrange(i, j), n),
{
    assert forall|k: int| 0 <= k < a.subrange(i, j).len() implies #[trigger] a.subrange(i, j)[k] < n by {
        assert(a.subrange(i, j)[k] == a[i + k]);
    }
}

/// A rearrangement of the positions below `m` holds only such positions.
proof fn lemma_perm_below(s: Seq<usize>, m: nat)
    requires
        s.to_multiset() == identity(m).to_multiset(),
    ensures
        all_below(s, m as int),
        s.len() == m,
{
    broadcast use {vstd::seq_lib::group_to_multiset_ensures, vstd::multiset::group_multiset_axioms};

    assert(s.to_multiset().len() == s.len());
    assert(identity(m).to_multiset().len() == identity(m).len());
    assert forall|k: int| 0 <= k < s.len() implies #[trigger] s[k] < m by {
        let x = s[k];
        assert(s.contains(x));
        assert(identity(m).to_multiset().count(x) > 0);
        assert(identity(m).contains(x));
        let i = choose|i: int| 0 <= i < identity(m).len() && identity(m)[i] == x;
    }
}

fn append_below(out: &mut Vec<usize>, src: &Vec<usize>, from: usize, to: usize, n: Ghost<int>)
    requires
        from <= to <= src.len(),
        all_below(old(out)@, n@),
        all_below(src@, n@),
    ensures
        final(out)@ == old(out)@ + src@.subrange(from as int, to as int),
        all_below(final(out)@, n@),
{
    proof {
        lemma_below_subrange(src@, from as int, to as int, n@);
        lemma_below_concat(old(out)@, src@.subrange(from as int, to as int), n@);
    }
    append_all(out, src, from, to);
}

fn final_grouped_vec(
    lens: &Vec<usize>,
    strong: &Vec<bool>,
    ic: usize,
    page: usize,
    exact_limit: usize,
    expansion_limit: usize,
) -> (r: Vec<usize>)
    requires
        lens.len() == strong.len(),
        ic < usize::MAX,
        exact_limit == exact_front_limit_for(ic),
        expansion_limit == expansion_limit_for(ic),
    ensures
        r@ == final_grouped(lens@, strong@, ic, page as int),
        all_below(r@, lens.len() as int),
{
    let (exact_front, exact_later, near, far, expansion) = final_groups_vec(lens, strong, ic, exact_limit, expansion_limit);
    let ghost n = lens.len() as int;
    let mut shorter: Vec<usize> = Vec::new();
    append_below(&mut shorter, &near, 0, near.len(), Ghost(n));
    append_below(&mut shorter, &far, 0, far.len(), Ghost(n));
    assert(near@.subrange(0, near@.len() as int) =~= near@);
    assert(far@.subrange(0, far@.len() as int) =~= far@);
    let after_exact: usize = if page > exact_front.len() {
        page - exact_front.len()
    } else {
        0
    };
    let room: usize = if after_exact > expansion.len() {
        after_exact - expansion.len()
    } else {
        0
    };
    let cap = if room < shorter.len() {
        room
    } else {
        shorter.len()
    };
    let mut out: Vec<usize> = Vec::new();
    append_below(&mut out, &exact_front, 0, exact_front.len(), Ghost(n));
    append_below(&mut out, &shorter, 0, cap, Ghost(n));
    append_below(&mut out, &exact_later, 0, exact_later.len(), Ghost(n));
    append_below(&mut out, &expansion, 0, expansion.len(), Ghost(n));
    append_below(&mut out, &shorter, cap, shorter.len(), Ghost(n));
    assert(exact_front@.subrange(0, exact_front@.len() as int) =~= exact_front@);
    assert(shorter@.subrange(0, cap as int) =~= shorter@.take(cap as int));
    assert(exact_later@.subrange(0, exact_later@.len() as int) =~= exact_later@);
    assert(expansion@.subrange(0, expansion@.len() as int) =~= expansion@);
    assert(shorter@.subrange(cap as int, shorter@.len() as int) =~= shorter@.skip(cap as int));
    out
}

/// Arranges the final candidate list of an input that asks for two to
/// four characters; `strong` marks the exact candidates with user priority
/// or a high lexicon frequency, and `pol` is the three-character page
/// policy.
pub fn apply_short_intent_final_candidate_density(
    lens: &Vec<usize>,
    strong: &Vec<bool>,
    intent_char_count: Option<usize>,
    page_size: usize,
    pol: &ThreeCharDensityPolicy,
) -> (r: Vec<usize>)
    requires
        lens.len() == strong.len(),
    ensures
        r@ == final_short_intent_density(lens@, strong@, intent_char_count, page_size, *pol),
{
    let n = lens.len();
    let ic = match intent_char_count {
        None => {
            return identity_vec(n);
        },
        Some(ic) => ic,
    };
    if !(2 <= ic && ic <= 4) || n <= 1 {
        return identity_vec(n);
    }
    let policy = match small_input_candidate_policy(ic, page_size) {
        Some(p) => p,
        None => {
            return identity_vec(n);
        },
    };
    let expansion_limit = if ic == 2 {
        SHORT_INTENT_TOTAL_EXPANSION_LIMIT
    } else if ic == 3 {
        SHORT_INTENT_THREE_CHAR_EXPANSION_LIMIT
    } else {
        policy.expansion_limit
    };
    let out = final_grouped_vec(lens, strong, ic, policy.page_size, policy.exact_front_limit, expansion_limit);
    if ic != 3 {
        return out;
    }
    let out_lens = lens_at(lens, &out);
    let arranged = arrange_three_char_intent_page_density(&out_lens, page_size, pol);
    proof {
        lemma_three_char_density_is_permutation(out_lens@, page_size, *pol);
        lemma_perm_below(arranged@, out_lens@.len());
    }
    map_positions(&out, &arranged)
}

proof fn lemma_final_groups_ms(
    lens: Seq<usize>,
    strong: Seq<bool>,
    n: int,
    intent: usize,
    exact_limit: usize,
    expansion_limit: usize,
)
    requires
        0 <= n <= lens.len(),
    ensures
        ({
            let g = final_groups(lens, strong, n, intent, exact_limit, expansion_limit);
            &&& g.0.to_multiset().add(g.1.to_multiset()).add(g.2.to_multiset()).add(g.3.to_multiset()).add(
                g.4.to_multiset(),
            ).subset_of(identity(n as nat).to_multiset())
            &&& forall|i: int|
                0 <= i < n && 1 <= #[trigger] lens[i] <= intent ==> g.0.contains(i as usize) || g.1.contains(
                    i as usize,
                ) || g.2.contains(i as usize) || g.3.contains(i as usize)
            &&& g.0.len() + g.1.len() + g.2.len() + g.3.len() + g.4.len() <= n
        }),
    decreases n,
{
    broadcast use {
        vstd::seq_lib::group_to_multiset_ensures,
        vstd::multiset::group_multiset_axioms,
        vstd::seq_lib::group_seq_properties,
    };

    if n == 0 {
        assert(identity(0) =~= Seq::<usize>::empty());
    } else {
        lemma_final_groups_ms(lens, strong, n - 1, intent, exact_limit, expansion_limit);
        assert(identity(n as nat) =~= identity((n - 1) as nat).push((n - 1) as usize));
        let g = final_groups(lens, strong, n - 1, intent, exact_limit, expansion_limit);
        let h = final_groups(lens, strong, n, intent, exact_limit, expansion_limit);
        let i = (n - 1) as usize;
        let gs = g.0.to_multiset().add(g.1.to_multiset()).add(g.2.to_multiset()).add(g.3.to_multiset()).add(
            g.4.to_multiset(),
        );
        let hs = h.0.to_multiset().add(h.1.to_multiset()).add(h.2.to_multiset()).add(h.3.to_multiset()).add(
            h.4.to_multiset(),
        );
        assert(hs =~= gs.insert(i) || hs =~= gs);
        assert forall|k: int| 0 <= k < n && 1 <= #[trigger] lens[k] <= intent implies h.0.contains(k as usize)
            || h.1.contains(k as usize) || h.2.contains(k as usize) || h.3.contains(k as usize) by {
            if k < n - 1 {
                assert(g.0.contains(k as usize) || g.1.contains(k as usize) || g.2.contains(k as usize) || g.3.contains(
                    k as usize,
                ));
            }
        }
    }
}

proof fn lemma_sub_identity_no_dup(s: Seq<usize>, m: nat)
    requires
        s.to_multiset().subset_of(identity(m).to_multiset()),
        m <= usize::MAX,
    ensures
        s.no_duplicates(),
        all_below(s, m as int),
{
    broadcast use {vstd::seq_lib::group_to_multiset_ensures, vstd::multiset::group_multiset_axioms};

    let id = identity(m);
    assert(id.no_duplicates());
    id.lemma_multiset_has_no_duplicates();
    assert forall|x: usize| s.to_multiset().contains(x) implies s.to_multiset().count(x) == 1 by {
        assert(id.to_multiset().count(x) >= s.to_multiset().count(x));
        assert(id.to_multiset().contains(x));
    }
    s.lemma_multiset_has_no_duplicates_conv();
    assert forall|k: int| 0 <= k < s.len() implies #[trigger] s[k] < m by {
        let x = s[k];
        assert(s.contains(x));
        assert(id.to_multiset().count(x) > 0);
        assert(id.contains(x));
        let i = choose|i: int| 0 <= i < id.len() && id[i] == x;
    }
}

/// Whether the final layout must keep a candidate of length `len`: one of
/// at most the asked length, or any candidate when no length is asked.
pub open spec fn must_keep(intent: Option<usize>, len: usize) -> bool {
    match intent {
        Some(ic) => 1 <= len <= ic,
        None => true,
    }
}

/// The final short-intent layout loses no candidate of at most the asked
/// length, and lists no candidate twice or one that was not there.
pub proof fn lemma_final_density_keeps_short(
    lens: Seq<usize>,
    strong: Seq<bool>,
    intent: Option<usize>,
    page_size: usize,
    pol: ThreeCharDensityPolicy,
)
    requires
        lens.len() == strong.len(),
        lens.len() <= usize::MAX,
    ensures
        final_short_intent_density(lens, strong, intent, page_size, pol).no_duplicates(),
        all_below(final_short_intent_density(lens, strong, intent, page_size, pol), lens.len() as int),
        forall|i: int|
            0 <= i < lens.len() && must_keep(intent, #[trigger] lens[i]) ==> final_short_intent_density(
                lens,
                strong,
                intent,
                page_size,
                pol,
            ).contains(i as usize),
{
    broadcast use {
        vstd::seq_lib::group_to_multiset_ensures,
        vstd::multiset::group_multiset_axioms,
        vstd::seq_lib::group_seq_properties,
    };

    let n = lens.len() as int;
    let r = final_short_intent_density(lens, strong, intent, page_size, pol);
    let id = identity(lens.len());
    let grouped = match intent {
        Some(ic) => 2 <= ic <= 4 && lens.len() > 1,
        None => false,
    };
    if !grouped {
        assert(r == id);
        assert(id.no_duplicates());
        assert forall|i: int| 0 <= i < n && must_keep(intent, #[trigger] lens[i]) implies r.contains(i as usize) by {
            assert(id[i] == i as usize);
        }
    } else {
        let ic = intent.unwrap();
        let el = exact_front_limit_for(ic);
        let xl = expansion_limit_for(ic);
        let g = final_groups(lens, strong, n, ic, el, xl);
        lemma_final_groups_ms(lens, strong, n, ic, el, xl);
        let p = clamp_page(page_size);
        let r1 = final_grouped(lens, strong, ic, p);
        let sh = g.2 + g.3;
        let cap = min_int(sat_sub(sat_sub(p, g.0.len() as int), g.4.len() as int), sh.len() as int);
        assert(sh =~= sh.take(cap) + sh.skip(cap));
        vstd::seq_lib::lemma_multiset_commutative(sh.take(cap), sh.skip(cap));
        vstd::seq_lib::lemma_multiset_commutative(g.2, g.3);
        vstd::seq_lib::lemma_multiset_commutative(g.0, sh.take(cap));
        vstd::seq_lib::lemma_multiset_commutative(g.0 + sh.take(cap), g.1);
        vstd::seq_lib::lemma_multiset_commutative(g.0 + sh.take(cap) + g.1, g.4);
        vstd::seq_lib::lemma_multiset_commutative(g.0 + sh.take(cap) + g.1 + g.4, sh.skip(cap));
        assert(r1 == g.0 + sh.take(cap) + g.1 + g.4 + sh.skip(cap));
        let m0 = g.0.to_multiset();
        let m1 = g.1.to_multiset();
        let m2 = g.2.to_multiset();
        let m3 = g.3.to_multiset();
        let m4 = g.4.to_multiset();
        let mt = sh.take(cap).to_multiset();
        let mk = sh.skip(cap).to_multiset();
        assert(mt.add(mk) == m2.add(m3));
        assert(r1.to_multiset() == m0.add(mt).add(m1).add(m4).add(mk));
        assert forall|x: usize| #[trigger] r1.to_multiset().count(x) == m0.add(m1).add(m2).add(m3).add(m4).count(x) by {
            assert(mt.add(mk).count(x) == m2.add(m3).count(x));
            assert(mt.count(x) + mk.count(x) == m2.count(x) + m3.count(x));
        }
        assert(r1.to_multiset() =~= m0.add(m1).add(m2).add(m3).add(m4));
        assert(r1.len() <= n);
        lemma_sub_identity_no_dup(r1, lens.len());
        assert forall|i: int| 0 <= i < n && must_keep(intent, #[trigger] lens[i]) implies r1.contains(i as usize) by {
            let x = i as usize;
            if g.2.contains(x) || g.3.contains(x) {
                assert(sh.contains(x));
                assert(sh.take(cap).contains(x) || sh.skip(cap).contains(x));
            }
        }
        if ic == 3 {
            let l1 = r1.map_values(|j: usize| lens[j as int]);
            let a = three_char_density(l1, page_size, pol);
            lemma_three_char_density_is_permutation(l1, page_size, pol);
            lemma_perm_below(a, l1.len());
            lemma_sub_identity_no_dup(a, l1.len());
            assert(r == a.map_values(|k: usize| r1[k as int]));
            assert forall|t1: int, t2: int| 0 <= t1 < r.len() && 0 <= t2 < r.len() && t1 != t2 implies r[t1]
                != r[t2] by {
                assert(a[t1] != a[t2]);
            }
            assert forall|k: int| 0 <= k < r.len() implies #[trigger] r[k] < n by {
                assert(r[k] == r1[a[k] as int]);
            }
            assert forall|i: int| 0 <= i < n && must_keep(intent, #[trigger] lens[i]) implies r.contains(i as usize) by {
                assert(r1.contains(i as usize));
                let k = choose|k: int| 0 <= k < r1.len() && r1[k] == i as usize;
                let idl = identity(l1.len());
                assert(idl[k] == k as usize);
                assert(idl.to_multiset().count(k as usize) > 0);
                assert(a.to_multiset().count(k as usize) > 0);
                assert(a.contains(k as usize));
                let t = choose|t: int| 0 <= t < a.len() && a[t] == k as usize;
                assert(r[t] == i as usize);
            }
        }
    }
}

/// The corrections shown as the settings ask: none when correction is off
/// or suppressed; otherwise the best correction (`best`, the correction
/// that sorts first by kind, score and phrase) joins the other candidates:
/// at light strength only when nothing else is listed, at medium strength
/// third (or as far as the list goes), at strong strength second. The
/// other corrections leave.
pub open spec fn corrections_limited(
    corrections: Seq<bool>,
    best: Option<usize>,
    enabled: bool,
    level: CorrectionLevel,
    suppress: bool,
) -> Seq<usize> {
    let out = flagged(corrections, corrections.len() as int, false);
    if !enabled || suppress {
        out
    } else {
        match best {
            None => out,
            Some(b) => match level {
                CorrectionLevel::Light => if out.len() == 0 {
                    seq![b]
                } else {
                    out
                },
                CorrectionLevel::Medium => out.insert(
                    if out.len() < 2 {
                        out.len() as int
                    } else {
                        2
                    },
                    b,
                ),
                CorrectionLevel::Strong => out.insert(
                    if out.len() == 0 {
                        0
                    } else {
                        1
                    },
                    b,
                ),
            },
        }
    }
}

/// Limits the corrections to the one that the settings let show, placed as
/// strong as the settings ask; `best` is the position of the correction
/// that sorts first.
pub fn limit_typo_corrections_first_page(
    corrections: &Vec<bool>,
    best: Option<usize>,
    prefs: CorrectionPrefs,
    suppress_correction: bool,
) -> (r: Vec<usize>)
    ensures
        r@ == corrections_limited(corrections@, best, prefs.enabled, prefs.level, suppress_correction),
{
    let mut out = flagged_positions(corrections, false);
    if !prefs.enabled || suppress_correction {
        return out;
    }
    match best {
        None => out,
        Some(b) => match prefs.level {
            CorrectionLevel::Light => {
                if out.len() == 0 {
                    let mut one: Vec<usize> = Vec::new();
                    one.push(b);
                    assert(one@ =~= seq![b]);
                    one
                } else {
                    out
                }
            },
            CorrectionLevel::Medium => {
                let at = if out.len() < 2 {
                    out.len()
                } else {
                    2
                };
                out.insert(at, b);
                out
            },
            CorrectionLevel::Strong => {
                let at = if out.len() == 0 {
                    0
                } else {
                    1
                };
                out.insert(at, b);
                out
            },
        },
    }
}

/// Limiting corrections keeps every other candidate, in order.
pub proof fn lemma_corrections_limited_keeps_others(
    corrections: Seq<bool>,
    best: Option<usize>,
    enabled: bool,
    level: CorrectionLevel,
    suppress: bool,
)
    requires
        corrections.len() <= usize::MAX,
    ensures
        forall|k: int|
            0 <= k < corrections.len() && !#[trigger] corrections[k] ==> corrections_limited(
                corrections,
                best,
                enabled,
                level,
                suppress,
            ).contains(k as usize),
{
    let n = corrections.len() as int;
    let out = flagged(corrections, n, false);
    let r = corrections_limited(corrections, best, enabled, level, suppress);
    assert forall|k: int| 0 <= k < n && !#[trigger] corrections[k] implies r.contains(k as usize) by {
        lemma_flagged_has(corrections, n, false, k);
        let i = choose|i: int| 0 <= i < out.len() && out[i] == k as usize;
        if enabled && !suppress && best is Some {
            let b = best.unwrap();
            if level == CorrectionLevel::Medium || level == CorrectionLevel::Strong {
                let at = if level == CorrectionLevel::Medium {
                    if out.len() < 2 {
                        out.len() as int
                    } else {
                        2
                    }
                } else if out.len() == 0 {
                    0
                } else {
                    1
                };
                out.insert_ensures(at, b);
                if i < at {
                    assert(r[i] == k as usize);
                } else {
                    assert(r[i + 1] == k as usize);
                }
            }
        }
    }
}

/// The last position, among the first `n` of `order`, whose candidate
/// `f` accepts.
pub open spec fn last_where(order: Seq<usize>, n: int, f: spec_fn(usize) -> bool) -> Option<int>
    decreases n,
{
    if n <= 0 {
        None
    } else if f(order[n - 1]) {
        Some(n - 1)
    } else {
        last_where(order, n - 1, f)
    }
}

pub open spec fn flag_set(flags: Seq<bool>) -> spec_fn(usize) -> bool {
    |i: usize| flags[i as int]
}

/// Corrections go after the last candidate that outranks them (a pinned
/// or user-priority candidate, or an exact full-pinyin phrase of the typed
/// syllable count, as `blocks` marks), keeping their order; nothing moves
/// when no candidate outranks them.
pub open spec fn corrections_below_priority(corrections: Seq<bool>, blocks: Seq<bool>) -> Seq<usize> {
    let n = corrections.len() as int;
    if n <= 1 || !(exists|i: int| 0 <= i < n && blocks[i]) {
        identity(corrections.len())
    } else {
        let normal = flagged(corrections, n, false);
        let corr = flagged(corrections, n, true);
        if corr.len() == 0 {
            normal
        } else {
            match last_where(normal, normal.len() as int, flag_set(blocks)) {
                None => normal + corr,
                Some(l) => normal.take(l + 1) + corr + normal.skip(l + 1),
            }
        }
    }
}

proof fn lemma_last_where(order: Seq<usize>, n: int, f: spec_fn(usize) -> bool)
    requires
        0 <= n <= order.len(),
    ensures
        match last_where(order, n, f) {
            Some(l) => 0 <= l < n && f(order[l]) && forall|k: int| l < k < n ==> !f(#[trigger] order[k]),
            None => forall|k: int| 0 <= k < n ==> !f(#[trigger] order[k]),
        },
    decreases n,
{
    if n > 0 && !f(order[n - 1]) {
        lemma_last_where(order, n - 1, f);
    }
}

/// Moves the corrections behind the last candidate that outranks them.
pub fn demote_corrections_below_priority_hits(corrections: &Vec<bool>, blocks: &Vec<bool>) -> (r: Vec<usize>)
    requires
        corrections.len() == blocks.len(),
    ensures
        r@ == corrections_below_priority(corrections@, blocks@),
{
    let n = corrections.len();
    if n <= 1 {
        return identity_vec(n);
    }
    let mut any = false;
    let mut i: usize = 0;
    while i < n
        invariant
            i <= n,
            n == blocks.len(),
            any == exists|k: int| 0 <= k < i && blocks@[k],
        decreases n - i,
    {
        if blocks[i] {
            any = true;
        }
        i += 1;
    }
    if !any {
        return identity_vec(n);
    }
    let normal = flagged_positions(corrections, false);
    let corr = flagged_positions(corrections, true);
    if corr.len() == 0 {
        return normal;
    }
    proof {
        lemma_flagged_shape(corrections@, n as int, false);
    }
    let ghost f = flag_set(blocks@);
    let mut l = normal.len();
    while l > 0
        invariant
            l <= normal.len(),
            f == flag_set(blocks@),
            forall|k: int| 0 <= k < normal.len() ==> #[trigger] normal@[k] < n,
            n == blocks.len(),
            last_where(normal@, normal.len() as int, f) == last_where(normal@, l as int, f),
        ensures
            l <= normal.len(),
            last_where(normal@, normal.len() as int, f) == last_where(normal@, l as int, f),
            l == 0 || blocks@[normal@[l - 1] as int],
        decreases l,
    {
        if blocks[normal[l - 1]] {
            break;
        }
        l -= 1;
    }
    proof {
        if l > 0 {
            assert(f(normal@[l - 1]));
            assert(last_where(normal@, l as int, f) == Some(l - 1));
        }
    }
    let mut out: Vec<usize> = Vec::new();
    if l == 0 {
        append_all(&mut out, &normal, 0, normal.len());
        append_all(&mut out, &corr, 0, corr.len());
        assert(normal@.subrange(0, normal@.len() as int) =~= normal@);
        assert(corr@.subrange(0, corr@.len() as int) =~= corr@);
    } else {
        append_all(&mut out, &normal, 0, l);
        append_all(&mut out, &corr, 0, corr.len());
        append_all(&mut out, &normal, l, normal.len());
        assert(normal@.subrange(0, l as int) =~= normal@.take(l as int));
        assert(corr@.subrange(0, corr@.len() as int) =~= corr@);
        assert(normal@.subrange(l as int, normal@.len() as int) =~= normal@.skip(l as int));
    }
    out
}

/// Demoting corrections below the priority candidates keeps every
/// candidate.
pub proof fn lemma_corrections_below_priority_is_permutation(corrections: Seq<bool>, blocks: Seq<bool>)
    requires
        corrections.len() == blocks.len(),
    ensures
        corrections_below_priority(corrections, blocks).to_multiset() == identity(corrections.len()).to_multiset(),
{
    broadcast use {vstd::seq_lib::group_to_multiset_ensures, vstd::multiset::group_multiset_axioms};

    let n = corrections.len() as int;
    if !(n <= 1 || !(exists|i: int| 0 <= i < n && blocks[i])) {
        let normal = flagged(corrections, n, false);
        let corr = flagged(corrections, n, true);
        lemma_flagged_partition(corrections, n);
        if corr.len() == 0 {
            assert(corr.to_multiset() =~= Multiset::empty());
            assert(normal.to_multiset() =~= corr.to_multiset().add(normal.to_multiset()));
        } else {
            lemma_last_where(normal, normal.len() as int, flag_set(blocks));
            match last_where(normal, normal.len() as int, flag_set(blocks)) {
                None => {
                    vstd::seq_lib::lemma_multiset_commutative(normal, corr);
                },
                Some(l) => {
                    let a = normal.take(l + 1);
                    let b = normal.skip(l + 1);
                    assert(normal =~= a + b);
                    vstd::seq_lib::lemma_multiset_commutative(a, b);
                    vstd::seq_lib::lemma_multiset_commutative(a, corr);
                    vstd::seq_lib::lemma_multiset_commutative(a + corr, b);
                    assert((a + corr + b).to_multiset() =~= corr.to_multiset().add(normal.to_multiset()));
                },
            }
        }
    }
}

/// The best typo correction moves into the top three: with correction on
/// above light strength and not suppressed, for more than three
/// candidates, a best typo correction (`best`) below the top three moves to
/// the third place.
pub open spec fn typo_in_top_three(n: nat, best: Option<usize>, enabled: bool, level: CorrectionLevel, suppress: bool) -> Seq<
    usize,
> {
    if !enabled || level == CorrectionLevel::Light || n <= 3 || suppress {
        identity(n)
    } else {
        match best {
            Some(b) => if b >= 3 && b < n {
                identity(n).remove(b as int).insert(2, b)
            } else {
                identity(n)
            },
            None => identity(n),
        }
    }
}

/// Moves the best typo correction into the top three when correction is
/// on above light strength; `best` is its position, when there is a typo
/// correction.
pub fn ensure_strong_typo_correction_in_top_three(
    len: usize,
    best: Option<usize>,
    prefs: CorrectionPrefs,
    suppress_correction: bool,
) -> (r: Vec<usize>)
    ensures
        r@ == typo_in_top_three(len as nat, best, prefs.enabled, prefs.level, suppress_correction),
{
    let mut order = identity_vec(len);
    if !prefs.enabled || prefs.level == CorrectionLevel::Light || len <= 3 || suppress_correction {
        return order;
    }
    match best {
        Some(b) => {
            if b >= 3 && b < len {
                let v = order.remove(b);
                order.insert(2, v);
            }
            order
        },
        None => order,
    }
}

/// The best typo correction stays visible after the priority candidates:
/// as for the top three, except that the correction goes just after the
/// last priority candidate (not a correction, as `blocks` marks) among the
/// top three, but not before the third place, and stays where it is when
/// that candidate is the third.
pub open spec fn typo_after_priority(
    corrections: Seq<bool>,
    blocks: Seq<bool>,
    best: Option<usize>,
    enabled: bool,
    level: CorrectionLevel,
    suppress: bool,
) -> Seq<usize> {
    let n = corrections.len();
    let id = identity(n);
    if !enabled || level == CorrectionLevel::Light || n <= 3 || suppress {
        id
    } else {
        match best {
            Some(b) => if b < 3 || b >= n {
                id
            } else {
                let front = |i: usize| !corrections[i as int] && blocks[i as int];
                match last_where(id, 3, front) {
                    Some(l) => if l >= 2 {
                        id
                    } else {
                        id.remove(b as int).insert(if l + 1 > 2 {
                            l + 1
                        } else {
                            2
                        }, b)
                    },
                    None => id.remove(b as int).insert(2, b),
                }
            },
            None => id,
        }
    }
}

/// Keeps the best typo correction visible after the priority candidates
/// of the top three.
pub fn ensure_typo_correction_visible_after_priority_hits(
    corrections: &Vec<bool>,
    blocks: &Vec<bool>,
    best: Option<usize>,
    prefs: CorrectionPrefs,
    suppress_correction: bool,
) -> (r: Vec<usize>)
    requires
        corrections.len() == blocks.len(),
    ensures
        r@ == typo_after_priority(corrections@, blocks@, best, prefs.enabled, prefs.level, suppress_correction),
{
    let n = corrections.len();
    let mut order = identity_vec(n);
    if !prefs.enabled || prefs.level == CorrectionLevel::Light || n <= 3 || suppress_correction {
        return order;
    }
    let b = match best {
        Some(b) => b,
        None => {
            return order;
        },
    };
    if b < 3 || b >= n {
        return order;
    }
    let ghost front = |i: usize| !corrections@[i as int] && blocks@[i as int];
    let ghost id = order@;
    let mut l: usize = 3;
    while l > 0
        invariant
            l <= 3,
            3 < n,
            n == corrections.len(),
            n == blocks.len(),
            id == identity(n as nat),
            order@ == id,
            front == (|i: usize| !corrections@[i as int] && blocks@[i as int]),
            last_where(id, 3, front) == last_where(id, l as int, front),
        ensures
            l <= 3,
            last_where(id, 3, front) == last_where(id, l as int, front),
            l == 0 || (!corrections@[l - 1] && blocks@[l - 1]),
        decreases l,
    {
        if !corrections[l - 1] && blocks[l - 1] {
            break;
        }
        l -= 1;
    }
    proof {
        if l > 0 {
            assert(id[l - 1] == (l - 1) as usize);
            assert(front(id[l - 1]));
            assert(last_where(id, l as int, front) == Some(l - 1));
        }
    }
    if l >= 3 {
        return order;
    }
    let at: usize = if l == 0 {
        2
    } else if l > 2 {
        l
    } else {
        2
    };
    let v = order.remove(b);
    order.insert(at, v);
    order
}

proof fn lemma_move_ms(n: nat, b: usize, at: int)
    requires
        b < n,
        0 <= at < n,
    ensures
        identity(n).remove(b as int).insert(at, b).to_multiset() == identity(n).to_multiset(),
{
    broadcast use {vstd::seq_lib::group_to_multiset_ensures, vstd::multiset::group_multiset_axioms};

    let id = identity(n);
    assert(id[b as int] == b);
    let rm = id.remove(b as int);
    assert(rm.to_multiset() == id.to_multiset().remove(b));
    assert(rm.insert(at, b).to_multiset() == rm.to_multiset().insert(b));
    assert(id.to_multiset().count(b) > 0);
    assert(rm.insert(at, b).to_multiset() =~= id.to_multiset());
}

/// Moving the best typo correction into the top three keeps every
/// candidate.
pub proof fn lemma_typo_in_top_three_is_permutation(
    n: nat,
    best: Option<usize>,
    enabled: bool,
    level: CorrectionLevel,
    suppress: bool,
)
    ensures
        typo_in_top_three(n, best, enabled, level, suppress).to_multiset() == identity(n).to_multiset(),
{
    if !(!enabled || level == CorrectionLevel::Light || n <= 3 || suppress) {
        if let Some(b) = best {
            if b >= 3 && b < n {
                lemma_move_ms(n, b, 2);
            }
        }
    }
}

/// Keeping the best typo correction visible keeps every candidate.
pub proof fn lemma_typo_after_priority_is_permutation(
    corrections: Seq<bool>,
    blocks: Seq<bool>,
    best: Option<usize>,
    enabled: bool,
    level: CorrectionLevel,
    suppress: bool,
)
    ensures
        typo_after_priority(corrections, blocks, best, enabled, level, suppress).to_multiset() == identity(
            corrections.len(),
        ).to_multiset(),
{
    let n = corrections.len();
    let id = identity(n);
    if !(!enabled || level == CorrectionLevel::Light || n <= 3 || suppress) {
        if let Some(b) = best {
            if !(b < 3 || b >= n) {
                let front = |i: usize| !corrections[i as int] && blocks[i as int];
                lemma_last_where(id, 3, front);
                match last_where(id, 3, front) {
                    Some(l) => if l < 2 {
                        lemma_move_ms(n, b, if l + 1 > 2 {
                            l + 1
                        } else {
                            2
                        });
                    },
                    None => {
                        lemma_move_ms(n, b, 2);
                    },
                }
            }
        }
    }
}

pub open spec fn exact_plain(lens: Seq<usize>, corrections: Seq<bool>, ic: usize) -> spec_fn(usize) -> bool {
    |i: usize| lens[i as int] == ic && !corrections[i as int]
}

pub open spec fn strong_pair_typo(lens: Seq<usize>, typos: Seq<bool>, at_least_top: Seq<bool>) -> spec_fn(usize) -> bool {
    |i: usize| lens[i as int] == 2 && at_least_top[i as int] && typos[i as int]
}

pub open spec fn phrase_is(phrases: Seq<Seq<char>>, t: Seq<char>) -> spec_fn(usize) -> bool {
    |i: usize| phrases[i as int] == t
}

/// A top candidate longer than asked gives way to the first candidate of
/// the asked length that is not a correction, for two to four asked
/// characters and more than one candidate.
pub open spec fn exact_before_expansion(lens: Seq<usize>, corrections: Seq<bool>, intent: Option<usize>) -> Seq<usize> {
    let n = lens.len();
    let id = identity(n);
    match intent {
        None => id,
        Some(ic) => if !(2 <= ic <= crate::intent::SHORT_HOTWORD_MAX_CHARS) || n <= 1 || lens[0] <= ic {
            id
        } else {
            match first_from(id, 0, exact_plain(lens, corrections, ic)) {
                Some(pos) => id.remove(pos).insert(0, pos as usize),
                None => id,
            }
        },
    }
}

/// Puts the first exact, non-correction candidate of a short intent before
/// a longer top candidate.
pub fn ensure_exact_short_intent_before_expansion(
    lens: &Vec<usize>,
    corrections: &Vec<bool>,
    intent_char_count: Option<usize>,
) -> (r: Vec<usize>)
    requires
        lens.len() == corrections.len(),
    ensures
        r@ == exact_before_expansion(lens@, corrections@, intent_char_count),
{
    let n = lens.len();
    let mut order = identity_vec(n);
    let ic = match intent_char_count {
        None => {
            return order;
        },
        Some(ic) => ic,
    };
    if !(2 <= ic && ic <= crate::intent::SHORT_HOTWORD_MAX_CHARS) || n <= 1 || lens[0] <= ic {
        return order;
    }
    let ghost id = order@;
    let ghost f = exact_plain(lens@, corrections@, ic);
    let mut k: usize = 0;
    while k < n
        invariant
            k <= n,
            n == lens.len(),
            n == corrections.len(),
            id == identity(n as nat),
            order@ == id,
            f == exact_plain(lens@, corrections@, ic),
            first_from(id, 0, f) == first_from(id, k as int, f),
            intent_char_count == Some(ic),
            2 <= ic <= crate::intent::SHORT_HOTWORD_MAX_CHARS,
            n > 1,
            lens@[0] > ic,
        decreases n - k,
    {
        assert(id[k as int] == k);
        if lens[k] == ic && !corrections[k] {
            assert(f(id[k as int]));
            assert(first_from(id, k as int, f) == Some(k as int));
            let v = order.remove(k);
            order.insert(0, v);
            assert(order@ =~= id.remove(k as int).insert(0, k));
            return order;
        }
        k += 1;
    }
    order
}

/// The first preserved phrase (`target`, when it is listed) goes right
/// after the candidates with user priority, which lead; the others
/// follow, each group in its order.
pub open spec fn preserved_after_user_priority(
    phrases: Seq<Seq<char>>,
    user_priority: Seq<bool>,
    target: Option<Seq<char>>,
) -> Seq<usize> {
    let id = identity(phrases.len());
    match target {
        None => id,
        Some(t) => match first_from(id, 0, phrase_is(phrases, t)) {
            None => id,
            Some(ti) => {
                let rest = id.remove(ti);
                rest.filter(flag_set(user_priority)) + seq![ti as usize] + rest.filter(
                    |i: usize| !user_priority[i as int],
                )
            },
        },
    }
}

/// Brings the first preserved phrase right after the user-priority
/// candidates.
pub fn promote_first_preserved_after_user_priority(
    phrases: &Vec<String>,
    user_priority: &Vec<bool>,
    preserved: &Vec<String>,
) -> (r: Vec<usize>)
    requires
        phrases.len() == user_priority.len(),
    ensures
        r@ == preserved_after_user_priority(
            strs_view(phrases@),
            user_priority@,
            if preserved.len() > 0 {
                Some(preserved@[0]@)
            } else {
                None
            },
        ),
{
    let n = phrases.len();
    let order = identity_vec(n);
    if preserved.len() == 0 {
        return order;
    }
    let ghost ps = strs_view(phrases@);
    let ghost id = order@;
    let ghost t = preserved@[0]@;
    let ghost f = phrase_is(ps, t);
    let mut k: usize = 0;
    let mut found: Option<usize> = None;
    while k < n
        invariant_except_break
            found is None,
        invariant
            k <= n,
            n == phrases.len(),
            ps == strs_view(phrases@),
            id == identity(n as nat),
            order@ == id,
            preserved.len() > 0,
            t == preserved@[0]@,
            f == phrase_is(ps, t),
            first_from(id, 0, f) == first_from(id, k as int, f),
        ensures
            match found {
                Some(ti) => ti < n && first_from(id, 0, f) == Some(ti as int),
                None => first_from(id, 0, f) is None,
            },
        decreases n - k,
    {
        assert(id[k as int] == k);
        if phrases[k] == preserved[0] {
            assert(f(id[k as int]));
            assert(first_from(id, k as int, f) == Some(k as int));
            found = Some(k);
            break;
        }
        k += 1;
    }
    let ti = match found {
        None => {
            return order;
        },
        Some(ti) => ti,
    };
    let mut rest = identity_vec(n);
    rest.remove(ti);
    let ghost rs = rest@;
    let ghost up = flag_set(user_priority@);
    let ghost ord = |i: usize| !user_priority@[i as int];
    let mut front: Vec<usize> = Vec::new();
    let mut back: Vec<usize> = Vec::new();
    let mut j: usize = 0;
    while j < rest.len()
        invariant
            j <= rest.len(),
            rest@ == rs,
            forall|q: int| 0 <= q < rest.len() ==> #[trigger] rest@[q] < n,
            n == user_priority.len(),
            up == flag_set(user_priority@),
            ord == (|i: usize| !user_priority@[i as int]),
            front@ == rs.take(j as int).filter(up),
            back@ == rs.take(j as int).filter(ord),
        decreases rest.len() - j,
    {
        let x = rest[j];
        proof {
            assert(rs.take(j + 1) =~= rs.take(j as int).push(x));
            rs.take(j as int).lemma_filter_push(x, up);
            rs.take(j as int).lemma_filter_push(x, ord);
        }
        if user_priority[x] {
            front.push(x);
        } else {
            back.push(x);
        }
        j += 1;
    }
    assert(rs.take(rest.len() as int) =~= rs);
    assert(rs == id.remove(ti as int));
    front.push(ti);
    append_all(&mut front, &back, 0, back.len());
    assert(back@.subrange(0, back@.len() as int) =~= back@);
    front
}

/// With correction on at strong strength and not suppressed, a top
/// candidate longer than two characters gives way to the first two-character
/// typo correction on the first page that scores at least as high
/// (`at_least_top`).
pub open spec fn strong_two_char_correction_first(
    lens: Seq<usize>,
    typos: Seq<bool>,
    at_least_top: Seq<bool>,
    enabled: bool,
    level: CorrectionLevel,
    suppress: bool,
) -> Seq<usize> {
    let n = lens.len();
    let id = identity(n);
    if !enabled || level != CorrectionLevel::Strong || suppress || n <= 1 || lens[0] <= 2 {
        id
    } else {
        let search = if n < TSF_PAGE_SIZE {
            n as int
        } else {
            TSF_PAGE_SIZE as int
        };
        match first_from(id.take(search), 0, strong_pair_typo(lens, typos, at_least_top)) {
            Some(pos) => if pos == 0 {
                id
            } else {
                id.remove(pos).insert(0, pos as usize)
            },
            None => id,
        }
    }
}

/// Puts a strong two-character typo correction before a longer top
/// candidate; `typos` marks the typo corrections and `at_least_top` the
/// candidates that score at least as high as the top one.
pub fn ensure_strong_two_char_correction_before_expansion(
    lens: &Vec<usize>,
    typos: &Vec<bool>,
    at_least_top: &Vec<bool>,
    prefs: CorrectionPrefs,
    suppress_correction: bool,
) -> (r: Vec<usize>)
    requires
        lens.len() == typos.len(),
        lens.len() == at_least_top.len(),
    ensures
        r@ == strong_two_char_correction_first(
            lens@,
            typos@,
            at_least_top@,
            prefs.enabled,
            prefs.level,
            suppress_correction,
        ),
{
    let n = lens.len();
    let mut order = identity_vec(n);
    if !prefs.enabled || prefs.level != CorrectionLevel::Strong || suppress_correction || n <= 1 || lens[0] <= 2 {
        return order;
    }
    let search = if n < TSF_PAGE_SIZE {
        n
    } else {
        TSF_PAGE_SIZE
    };
    let ghost id = order@;
    let ghost head = id.take(search as int);
    let ghost f = strong_pair_typo(lens@, typos@, at_least_top@);
    let mut k: usize = 0;
    while k < search
        invariant
            k <= search <= n,
            n == lens.len(),
            n == typos.len(),
            n == at_least_top.len(),
            id == identity(n as nat),
            head == id.take(search as int),
            order@ == id,
            f == strong_pair_typo(lens@, typos@, at_least_top@),
            first_from(head, 0, f) == first_from(head, k as int, f),
            prefs.enabled,
            prefs.level == CorrectionLevel::Strong,
            !suppress_correction,
            n > 1,
            lens@[0] > 2,
            search == (if n < TSF_PAGE_SIZE {
                n
            } else {
                TSF_PAGE_SIZE
            }),
        decreases search - k,
    {
        assert(head[k as int] == k);
        if lens[k] == 2 && at_least_top[k] && typos[k] {
            assert(f(head[k as int]));
            assert(first_from(head, k as int, f) == Some(k as int));
            if k == 0 {
                return order;
            }
            let v = order.remove(k);
            order.insert(0, v);
            assert(order@ =~= id.remove(k as int).insert(0, k));
            return order;
        }
        k += 1;
    }
    order
}

/// Putting the exact candidate first keeps every candidate.
pub proof fn lemma_exact_before_expansion_is_permutation(lens: Seq<usize>, corrections: Seq<bool>, intent: Option<usize>)
    requires
        lens.len() <= usize::MAX,
    ensures
        exact_before_expansion(lens, corrections, intent).to_multiset() == identity(lens.len()).to_multiset(),
{
    let id = identity(lens.len());
    if let Some(ic) = intent {
        if !(!(2 <= ic <= crate::intent::SHORT_HOTWORD_MAX_CHARS) || lens.len() <= 1 || lens[0] <= ic) {
            lemma_first_from(id, 0, exact_plain(lens, corrections, ic));
            if let Some(pos) = first_from(id, 0, exact_plain(lens, corrections, ic)) {
                assert(id[pos] == pos as usize);
                lemma_move_ms(lens.len(), pos as usize, 0);
            }
        }
    }
}

/// Putting a strong two-character correction first keeps every candidate.
pub proof fn lemma_strong_two_char_correction_first_is_permutation(
    lens: Seq<usize>,
    typos: Seq<bool>,
    at_least_top: Seq<bool>,
    enabled: bool,
    level: CorrectionLevel,
    suppress: bool,
)
    ensures
        strong_two_char_correction_first(lens, typos, at_least_top, enabled, level, suppress).to_multiset() == identity(
            lens.len(),
        ).to_multiset(),
{
    let n = lens.len();
    let id = identity(n);
    if !(!enabled || level != CorrectionLevel::Strong || suppress || n <= 1 || lens[0] <= 2) {
        let search = if n < TSF_PAGE_SIZE {
            n as int
        } else {
            TSF_PAGE_SIZE as int
        };
        let head = id.take(search);
        lemma_first_from(head, 0, strong_pair_typo(lens, typos, at_least_top));
        if let Some(pos) = first_from(head, 0, strong_pair_typo(lens, typos, at_least_top)) {
            if pos != 0 {
                assert(head[pos] == id[pos]);
                assert(id[pos] == pos as usize);
                lemma_move_ms(n, pos as usize, 0);
            }
        }
    }
}

proof fn lemma_filter_split_ms(s: Seq<usize>, f: spec_fn(usize) -> bool, g: spec_fn(usize) -> bool)
    requires
        forall|x: usize| #[trigger] f(x) == !g(x),
    ensures
        s.filter(f).to_multiset().add(s.filter(g).to_multiset()) == s.to_multiset(),
    decreases s.len(),
{
    broadcast use {vstd::seq_lib::group_to_multiset_ensures, vstd::multiset::group_multiset_axioms};

    if s.len() == 0 {
        s.lemma_filter_len(f);
        s.lemma_filter_len(g);
        assert(s.filter(f) =~= Seq::<usize>::empty());
        assert(s.filter(g) =~= Seq::<usize>::empty());
        assert(s.to_multiset() =~= Multiset::empty());
    } else {
        let d = s.drop_last();
        lemma_filter_split_ms(d, f, g);
        assert(s =~= d.push(s.last()));
        d.lemma_filter_push(s.last(), f);
        d.lemma_filter_push(s.last(), g);
        assert(f(s.last()) == !g(s.last()));
    }
}

/// Bringing the first preserved phrase after the user-priority candidates
/// keeps every candidate.
pub proof fn lemma_preserved_after_user_priority_is_permutation(
    phrases: Seq<Seq<char>>,
    user_priority: Seq<bool>,
    target: Option<Seq<char>>,
)
    requires
        phrases.len() <= usize::MAX,
    ensures
        preserved_after_user_priority(phrases, user_priority, target).to_multiset() == identity(
            phrases.len(),
        ).to_multiset(),
{
    broadcast use {vstd::seq_lib::group_to_multiset_ensures, vstd::multiset::group_multiset_axioms};

    let id = identity(phrases.len());
    if let Some(t) = target {
        lemma_first_from(id, 0, phrase_is(phrases, t));
        if let Some(ti) = first_from(id, 0, phrase_is(phrases, t)) {
            let rest = id.remove(ti);
            let up = flag_set(user_priority);
            let ord = |i: usize| !user_priority[i as int];
            lemma_filter_split_ms(rest, up, ord);
            vstd::seq_lib::lemma_multiset_commutative(rest.filter(up), seq![ti as usize]);
            vstd::seq_lib::lemma_multiset_commutative(rest.filter(up) + seq![ti as usize], rest.filter(ord));
            assert(id[ti] == ti as usize);
            assert(rest.to_multiset() == id.to_multiset().remove(ti as usize));
            assert(id.to_multiset().count(ti as usize) > 0);
            let a = rest.filter(up).to_multiset();
            let b = rest.filter(ord).to_multiset();
            let one = seq![ti as usize].to_multiset();
            assert(one =~= Multiset::singleton(ti as usize)) by {
                assert(seq![ti as usize] =~= Seq::<usize>::empty().push(ti as usize));
            }
            assert forall|x: usize| #[trigger] (rest.filter(up) + seq![ti as usize] + rest.filter(ord)).to_multiset().count(x)
                == id.to_multiset().count(x) by {
                assert(a.add(b).count(x) == rest.to_multiset().count(x));
            }
            assert((rest.filter(up) + seq![ti as usize] + rest.filter(ord)).to_multiset() =~= id.to_multiset());
        }
    }
}

/// The letters tried at each position of a key that may miss one, in the
/// order they are tried.
pub open spec fn insert_letters() -> Seq<char> {
    seq![
        'a', 'e', 'i', 'o', 'u', 'n', 'g', 'h', 'r', 'y', 'w', 'm', 'l', 'b', 'p', 'f', 'd', 't', 'k', 'j',
        'q', 'x', 'z', 'c', 's', 'v',
    ]
}

/// Every key made by inserting one letter into `key`: position by
/// position from the front, each letter in turn.
pub open spec fn single_insertions(key: Seq<char>) -> Seq<Seq<char>> {
    Seq::new(((key.len() + 1) * 26) as nat, |k: int| key.insert(k / 26, insert_letters()[k % 26]))
}

/// The keys one inserted letter away from `key`, each once, in the order
/// they are first made.
pub fn single_insert_ascii_variants(key: &str) -> (r: Vec<String>)
    ensures
        strs_view(r@) == single_insertions(key@).remove_duplicates(Seq::empty()),
{
    let chars = chars_of(key);
    let letters: Vec<char> = vec![
        'a', 'e', 'i', 'o', 'u', 'n', 'g', 'h', 'r', 'y', 'w', 'm', 'l', 'b', 'p', 'f', 'd', 't', 'k', 'j', 'q',
        'x', 'z', 'c', 's', 'v',
    ];
    assert(letters@ =~= insert_letters());
    let ghost all = single_insertions(key@);
    let mut out: Vec<String> = Vec::new();
    let mut idx: usize = 0;
    loop
        invariant_except_break
            strs_view(out@) == all.take(idx * 26).remove_duplicates(Seq::empty()),
        invariant
            idx <= chars.len(),
            chars@ == key@,
            letters@ == insert_letters(),
            all == single_insertions(key@),
        ensures
            strs_view(out@) == all.take((chars.len() + 1) * 26).remove_duplicates(Seq::empty()),
        decreases chars.len() - idx,
    {
        let mut a: usize = 0;
        while a < 26
            invariant
                a <= 26,
                idx <= chars.len(),
                chars@ == key@,
                letters@ == insert_letters(),
                all == single_insertions(key@),
                strs_view(out@) == all.take(idx * 26 + a).remove_duplicates(Seq::empty()),
            decreases 26 - a,
        {
            let mut candidate = chars.clone();
            assert(candidate@ =~= chars@);
            candidate.insert(idx, letters[a]);
            let text = string_of(&candidate);
            let ghost c = idx * 26 + a;
            proof {
                assert(c / 26 == idx as int) by (nonlinear_arith)
                    requires
                        c == idx * 26 + a,
                        0 <= a < 26,
                ;
                assert(c % 26 == a as int) by (nonlinear_arith)
                    requires
                        c == idx * 26 + a,
                        0 <= a < 26,
                ;
                assert(c < all.len()) by (nonlinear_arith)
                    requires
                        c == idx * 26 + a,
                        0 <= a < 26,
                        idx <= key@.len(),
                        all.len() == (key@.len() + 1) * 26,
                ;
                assert(all[c] == text@);
                let prefix = all.take(c);
                assert(all.take(c + 1) =~= prefix + seq![text@]);
                prefix.lemma_remove_duplicates_append(text@, Seq::empty());
                prefix.lemma_remove_duplicates_properties(Seq::empty());
                assert(prefix + Seq::<Seq<char>>::empty() =~= prefix);
            }
            assert(strs_view(out@) == crate::dict::strings_view(out@));
            if !crate::dict::contains_string(&out, &text) {
                let ghost before = strs_view(out@);
                out.push(text);
                assert(strs_view(out@) =~= before + seq![text@]);
            }
            a += 1;
        }
        if idx == chars.len() {
            break;
        }
        idx += 1;
    }
    proof {
        assert(all.take(((key@.len() + 1) * 26) as int) =~= all);
    }
    out
}

/// The two-letter abbreviation behind a short all-letter key typed as
/// letters only: the key itself when it has two letters; else the first
/// letter of a leading syllable and the last letter, when the key without
/// its last letter is a syllable; else the first letter and the first
/// letter of the trailing syllable, when the key without its first letter
/// is one.
pub open spec fn two_char_abbrev_key(raw: Seq<char>, key: Seq<char>, syllables: Set<Seq<char>>) -> Option<Seq<char>> {
    if key.len() == 0 || !all_alpha(raw) || raw.len() != key.len() || !all_alpha(key) {
        None
    } else if key.len() == 2 {
        Some(key)
    } else if syllables.contains(key.drop_last()) {
        if key.len() >= 2 {
            Some(seq![key[0], key.last()])
        } else {
            None
        }
    } else if syllables.contains(key.skip(1)) {
        if key.len() >= 2 {
            Some(seq![key[0], key[1]])
        } else {
            None
        }
    } else {
        None
    }
}

/// The two-letter abbreviation whose two-character phrases a short key
/// favours.
pub fn high_priority_two_char_abbrev_key(raw: &str, compact_key: &str, syllable_set: &StringHashSet) -> (r: Option<
    String,
>)
    ensures
        match r {
            Some(s) => two_char_abbrev_key(raw@, compact_key@, syllable_set@) == Some(s@),
            None => two_char_abbrev_key(raw@, compact_key@, syllable_set@) is None,
        },
{
    let rv = chars_of(raw);
    let kv = chars_of(compact_key);
    if kv.len() == 0 || !all_alpha_vec(&rv) || rv.len() != kv.len() || !all_alpha_vec(&kv) {
        return None;
    }
    if kv.len() == 2 {
        return Some(compact_key.to_string());
    }
    let n = kv.len();
    let head = string_of(&crate::text::slice_vec(&kv, 0, n - 1));
    assert(head@ =~= compact_key@.drop_last());
    if syllable_set.contains(head.as_str()) {
        if n >= 2 {
            let mut two: Vec<char> = Vec::new();
            two.push(kv[0]);
            two.push(kv[n - 1]);
            assert(two@ =~= seq![compact_key@[0], compact_key@.last()]);
            return Some(string_of(&two));
        }
        return None;
    }
    let tail = string_of(&crate::text::slice_vec(&kv, 1, n));
    assert(tail@ =~= compact_key@.skip(1));
    if syllable_set.contains(tail.as_str()) {
        if n >= 2 {
            let mut two: Vec<char> = Vec::new();
            two.push(kv[0]);
            two.push(kv[1]);
            assert(two@ =~= seq![compact_key@[0], compact_key@[1]]);
            return Some(string_of(&two));
        }
        return None;
    }
    None
}

/// The phrases that a few common abbreviations and misspelled readings
/// prefer, in order.
pub open spec fn preferred_short_abbrev(key: Seq<char>) -> Seq<Seq<char>> {
    if key == "bejing"@ {
        seq!["北京"@]
    } else if key == "bj"@ {
        seq!["北京"@]
    } else if key == "chongq"@ {
        seq!["重庆"@]
    } else if key == "cq"@ {
        seq!["重庆"@]
    } else if key == "fenghua"@ {
        seq!["奉化"@]
    } else if key == "fengh"@ {
        seq!["奉化"@]
    } else if key == "jint"@ {
        seq!["今天"@]
    } else if key == "jntian"@ {
        seq!["今天"@]
    } else if key == "migtian"@ {
        seq!["明天"@]
    } else if key == "nj"@ {
        seq!["南京"@]
    } else if key == "sj"@ {
        seq!["世界"@, "手机"@, "睡觉"@]
    } else if key == "dt"@ {
        seq!["大厅"@, "地铁"@]
    } else if key == "js"@ {
        seq!["就是"@, "结束"@]
    } else if key == "fz"@ {
        seq!["房子"@]
    } else if key == "sb"@ {
        seq!["设备"@, "上班"@]
    } else if key == "bb"@ {
        seq!["宝宝"@]
    } else if key == "gw"@ {
        seq!["给我"@, "购物"@]
    } else if key == "zj"@ {
        seq!["再见"@]
    } else if key == "sg"@ {
        seq!["水果"@]
    } else if key == "sc"@ {
        seq!["市场"@, "蔬菜"@]
    } else if key == "cs"@ {
        seq!["城市"@, "超市"@]
    } else if key == "pj"@ {
        seq!["普京"@, "啤酒"@]
    } else if key == "zc"@ {
        seq!["支持"@, "早餐"@]
    } else if key == "xb"@ {
        seq!["宣布"@, "下班"@]
    } else if key == "wc"@ {
        seq!["完成"@, "晚餐"@]
    } else if key == "kd"@ {
        seq!["看到"@, "快递"@]
    } else if key == "wm"@ {
        seq!["我们"@, "外卖"@]
    } else if key == "mc"@ {
        seq!["买菜"@]
    } else if key == "qr"@ {
        seq!["确认"@]
    } else if key == "kh"@ {
        seq!["客户"@]
    } else if key == "sh"@ {
        seq!["上海"@]
    } else if key == "shangh"@ {
        seq!["上海"@]
    } else if key == "shur"@ {
        seq!["输入"@]
    } else if key == "yy"@ {
        seq!["医院"@, "音乐"@]
    } else if key == "zg"@ {
        seq!["中国"@]
    } else if key == "hd"@ {
        seq!["好的"@]
    } else if key == "hl"@ {
        seq!["好了"@]
    } else if key == "sd"@ {
        seq!["是的"@]
    } else if key == "dl"@ {
        seq!["对了"@]
    } else if key == "ygrm"@ {
        seq!["一个人吗"@]
    } else {
        Seq::empty()
    }
}

fn preferred_short_abbrev_phrases(key: &Vec<char>) -> (r: Vec<String>)
    ensures
        strs_view(r@) == preferred_short_abbrev(key@),
{
    if eq_vec(key, &chars_of("bejing")) {
        let r: Vec<String> = vec!["北京".to_string()];
        assert(strs_view(r@) =~= seq!["北京"@]);
        r
    } else if eq_vec(key, &chars_of("bj")) {
        let r: Vec<String> = vec!["北京".to_string()];
        assert(strs_view(r@) =~= seq!["北京"@]);
        r
    } else if eq_vec(key, &chars_of("chongq")) {
        let r: Vec<String> = vec!["重庆".to_string()];
        assert(strs_view(r@) =~= seq!["重庆"@]);
        r
    } else if eq_vec(key, &chars_of("cq")) {
        let r: Vec<String> = vec!["重庆".to_string()];
        assert(strs_view(r@) =~= seq!["重庆"@]);
        r
    } else if eq_vec(key, &chars_of("fenghua")) {
        let r: Vec<String> = vec!["奉化".to_string()];
        assert(strs_view(r@) =~= seq!["奉化"@]);
        r
    } else if eq_vec(key, &chars_of("fengh")) {
        let r: Vec<String> = vec!["奉化".to_string()];
        assert(strs_view(r@) =~= seq!["奉化"@]);
        r
    } else if eq_vec(key, &chars_of("jint")) {
        let r: Vec<String> = vec!["今天".to_string()];
        assert(strs_view(r@) =~= seq!["今天"@]);
        r
    } else if eq_vec(key, &chars_of("jntian")) {
        let r: Vec<String> = vec!["今天".to_string()];
        assert(strs_view(r@) =~= seq!["今天"@]);
        r
    } else if eq_vec(key, &chars_of("migtian")) {
        let r: Vec<String> = vec!["明天".to_string()];
        assert(strs_view(r@) =~= seq!["明天"@]);
        r
    } else if eq_vec(key, &chars_of("nj")) {
        let r: Vec<String> = vec!["南京".to_string()];
        assert(strs_view(r@) =~= seq!["南京"@]);
        r
    } else if eq_vec(key, &chars_of("sj")) {
        let r: Vec<String> = vec!["世界".to_string(), "手机".to_string(), "睡觉".to_string()];
        assert(strs_view(r@) =~= seq!["世界"@, "手机"@, "睡觉"@]);
        r
    } else if eq_vec(key, &chars_of("dt")) {
        let r: Vec<String> = vec!["大厅".to_string(), "地铁".to_string()];
        assert(strs_view(r@) =~= seq!["大厅"@, "地铁"@]);
        r
    } else if eq_vec(key, &chars_of("js")) {
        let r: Vec<String> = vec!["就是".to_string(), "结束".to_string()];
        assert(strs_view(r@) =~= seq!["就是"@, "结束"@]);
        r
    } else if eq_vec(key, &chars_of("fz")) {
        let r: Vec<String> = vec!["房子".to_string()];
        assert(strs_view(r@) =~= seq!["房子"@]);
        r
    } else if eq_vec(key, &chars_of("sb")) {
        let r: Vec<String> = vec!["设备".to_string(), "上班".to_string()];
        assert(strs_view(r@) =~= seq!["设备"@, "上班"@]);
        r
    } else if eq_vec(key, &chars_of("bb")) {
        let r: Vec<String> = vec!["宝宝".to_string()];
        assert(strs_view(r@) =~= seq!["宝宝"@]);
        r
    } else if eq_vec(key, &chars_of("gw")) {
        let r: Vec<String> = vec!["给我".to_string(), "购物".to_string()];
        assert(strs_view(r@) =~= seq!["给我"@, "购物"@]);
        r
    } else if eq_vec(key, &chars_of("zj")) {
        let r: Vec<String> = vec!["再见".to_string()];
        assert(strs_view(r@) =~= seq!["再见"@]);
        r
    } else if eq_vec(key, &chars_of("sg")) {
        let r: Vec<String> = vec!["水果".to_string()];
        assert(strs_view(r@) =~= seq!["水果"@]);
        r
    } else if eq_vec(key, &chars_of("sc")) {
        let r: Vec<String> = vec!["市场".to_string(), "蔬菜".to_string()];
        assert(strs_view(r@) =~= seq!["市场"@, "蔬菜"@]);
        r
    } else if eq_vec(key, &chars_of("cs")) {
        let r: Vec<String> = vec!["城市".to_string(), "超市".to_string()];
        assert(strs_view(r@) =~= seq!["城市"@, "超市"@]);
        r
    } else if eq_vec(key, &chars_of("pj")) {
        let r: Vec<String> = vec!["普京".to_string(), "啤酒".to_string()];
        assert(strs_view(r@) =~= seq!["普京"@, "啤酒"@]);
        r
    } else if eq_vec(key, &chars_of("zc")) {
        let r: Vec<String> = vec!["支持".to_string(), "早餐".to_string()];
        assert(strs_view(r@) =~= seq!["支持"@, "早餐"@]);
        r
    } else if eq_vec(key, &chars_of("xb")) {
        let r: Vec<String> = vec!["宣布".to_string(), "下班".to_string()];
        assert(strs_view(r@) =~= seq!["宣布"@, "下班"@]);
        r
    } else if eq_vec(key, &chars_of("wc")) {
        let r: Vec<String> = vec!["完成".to_string(), "晚餐".to_string()];
        assert(strs_view(r@) =~= seq!["完成"@, "晚餐"@]);
        r
    } else if eq_vec(key, &chars_of("kd")) {
        let r: Vec<String> = vec!["看到".to_string(), "快递".to_string()];
        assert(strs_view(r@) =~= seq!["看到"@, "快递"@]);
        r
    } else if eq_vec(key, &chars_of("wm")) {
        let r: Vec<String> = vec!["我们".to_string(), "外卖".to_string()];
        assert(strs_view(r@) =~= seq!["我们"@, "外卖"@]);
        r
    } else if eq_vec(key, &chars_of("mc")) {
        let r: Vec<String> = vec!["买菜".to_string()];
        assert(strs_view(r@) =~= seq!["买菜"@]);
        r
    } else if eq_vec(key, &chars_of("qr")) {
        let r: Vec<String> = vec!["确认".to_string()];
        assert(strs_view(r@) =~= seq!["确认"@]);
        r
    } else if eq_vec(key, &chars_of("kh")) {
        let r: Vec<String> = vec!["客户".to_string()];
        assert(strs_view(r@) =~= seq!["客户"@]);
        r
    } else if eq_vec(key, &chars_of("sh")) {
        let r: Vec<String> = vec!["上海".to_string()];
        assert(strs_view(r@) =~= seq!["上海"@]);
        r
    } else if eq_vec(key, &chars_of("shangh")) {
        let r: Vec<String> = vec!["上海".to_string()];
        assert(strs_view(r@) =~= seq!["上海"@]);
        r
    } else if eq_vec(key, &chars_of("shur")) {
        let r: Vec<String> = vec!["输入".to_string()];
        assert(strs_view(r@) =~= seq!["输入"@]);
        r
    } else if eq_vec(key, &chars_of("yy")) {
        let r: Vec<String> = vec!["医院".to_string(), "音乐".to_string()];
        assert(strs_view(r@) =~= seq!["医院"@, "音乐"@]);
        r
    } else if eq_vec(key, &chars_of("zg")) {
        let r: Vec<String> = vec!["中国".to_string()];
        assert(strs_view(r@) =~= seq!["中国"@]);
        r
    } else if eq_vec(key, &chars_of("hd")) {
        let r: Vec<String> = vec!["好的".to_string()];
        assert(strs_view(r@) =~= seq!["好的"@]);
        r
    } else if eq_vec(key, &chars_of("hl")) {
        let r: Vec<String> = vec!["好了".to_string()];
        assert(strs_view(r@) =~= seq!["好了"@]);
        r
    } else if eq_vec(key, &chars_of("sd")) {
        let r: Vec<String> = vec!["是的".to_string()];
        assert(strs_view(r@) =~= seq!["是的"@]);
        r
    } else if eq_vec(key, &chars_of("dl")) {
        let r: Vec<String> = vec!["对了".to_string()];
        assert(strs_view(r@) =~= seq!["对了"@]);
        r
    } else if eq_vec(key, &chars_of("ygrm")) {
        let r: Vec<String> = vec!["一个人吗".to_string()];
        assert(strs_view(r@) =~= seq!["一个人吗"@]);
        r
    } else {
        let r: Vec<String> = Vec::new();
        assert(strs_view(r@) =~= Seq::<Seq<char>>::empty());
        r
    }
}

pub open spec fn other_than(p: Seq<char>) -> spec_fn(Seq<char>) -> bool {
    |x: Seq<char>| x != p
}

/// `phrases` after each of `preferred`, from the last to the first, moves
/// to the front (leaving any other copy of it).
pub open spec fn moved_front(phrases: Seq<Seq<char>>, preferred: Seq<Seq<char>>) -> Seq<Seq<char>>
    decreases preferred.len(),
{
    if preferred.len() == 0 {
        phrases
    } else {
        let rest = moved_front(phrases, preferred.skip(1));
        seq![preferred[0]] + rest.filter(other_than(preferred[0]))
    }
}

proof fn lemma_filter_keeps_all<A>(a: Seq<A>, f: spec_fn(A) -> bool)
    requires
        forall|i: int| 0 <= i < a.len() ==> f(#[trigger] a[i]),
    ensures
        a.filter(f) == a,
    decreases a.len(),
{
    if a.len() == 0 {
        a.lemma_filter_len(f);
        assert(a.filter(f) =~= a);
    } else {
        let d = a.drop_last();
        lemma_filter_keeps_all(d, f);
        assert(a =~= d.push(a.last()));
        d.lemma_filter_push(a.last(), f);
        assert(f(a[a.len() - 1]));
    }
}

/// Distinct preferred phrases lead the list, in their order.
pub proof fn lemma_preferred_phrases_lead(phrases: Seq<Seq<char>>, preferred: Seq<Seq<char>>)
    requires
        preferred.no_duplicates(),
    ensures
        moved_front(phrases, preferred).len() >= preferred.len(),
        moved_front(phrases, preferred).take(preferred.len() as int) == preferred,
    decreases preferred.len(),
{
    if preferred.len() > 0 {
        let p0 = preferred[0];
        let t = preferred.skip(1);
        assert(t.no_duplicates()) by {
            assert forall|i: int, j: int| 0 <= i < t.len() && 0 <= j < t.len() && i != j implies t[i] != t[j] by {
                assert(t[i] == preferred[i + 1] && t[j] == preferred[j + 1]);
            }
        }
        lemma_preferred_phrases_lead(phrases, t);
        let rest = moved_front(phrases, t);
        let f = other_than(p0);
        let a = rest.take(t.len() as int);
        let b = rest.skip(t.len() as int);
        assert(rest =~= a + b);
        Seq::filter_distributes_over_add(a, b, f);
        assert forall|i: int| 0 <= i < a.len() implies f(#[trigger] a[i]) by {
            assert(a[i] == t[i]);
            assert(t[i] == preferred[i + 1]);
            assert(preferred[0] != preferred[i + 1]);
        }
        lemma_filter_keeps_all(a, f);
        let r = moved_front(phrases, preferred);
        assert(r == seq![p0] + (a + b.filter(f)));
        assert(r.take(preferred.len() as int) =~= preferred);
    }
}

fn without_phrase(v: &Vec<String>, p: &String) -> (r: Vec<String>)
    ensures
        strs_view(r@) == strs_view(v@).filter(other_than(p@)),
{
    let ghost vs = strs_view(v@);
    let ghost f = other_than(p@);
    let mut out: Vec<String> = Vec::new();
    let mut i: usize = 0;
    while i < v.len()
        invariant
            i <= v.len(),
            vs == strs_view(v@),
            f == other_than(p@),
            strs_view(out@) == vs.take(i as int).filter(f),
        decreases v.len() - i,
    {
        proof {
            assert(vs.take(i + 1) =~= vs.take(i as int).push(vs[i as int]));
            vs.take(i as int).lemma_filter_push(vs[i as int], f);
        }
        if v[i] != *p {
            let ghost before = strs_view(out@);
            out.push(v[i].clone());
            assert(strs_view(out@) =~= before.push(vs[i as int]));
        }
        i += 1;
    }
    assert(vs.take(v.len() as int) =~= vs);
    out
}

/// Moves the phrases that a common abbreviation or misspelled reading
/// prefers to the front, in their order.
pub fn promote_preferred_short_abbrev(compact_key: &str, phrases: &mut Vec<String>)
    ensures
        strs_view(final(phrases)@) == moved_front(strs_view(old(phrases)@), preferred_short_abbrev(compact_key@)),
{
    let key = chars_of(compact_key);
    let preferred = preferred_short_abbrev_phrases(&key);
    let ghost pv = strs_view(preferred@);
    let ghost orig = strs_view(phrases@);
    let mut i = preferred.len();
    assert(pv.skip(i as int) =~= Seq::<Seq<char>>::empty());
    while i > 0
        invariant
            i <= preferred.len(),
            pv == strs_view(preferred@),
            strs_view(phrases@) == moved_front(orig, pv.skip(i as int)),
        decreases i,
    {
        let p = &preferred[i - 1];
        let kept = without_phrase(phrases, p);
        let mut next: Vec<String> = Vec::new();
        next.push(p.clone());
        append_strings(&mut next, &kept);
        proof {
            let tail = pv.skip(i as int);
            assert(pv.skip(i - 1).skip(1) =~= tail);
            assert(pv.skip(i - 1)[0] == p@);
            assert(strs_view(next@) =~= seq![p@] + strs_view(kept@));
        }
        *phrases = next;
        i -= 1;
    }
    assert(pv.skip(0) =~= pv);
}

pub(crate) fn append_strings(out: &mut Vec<String>, src: &Vec<String>)
    ensures
        strs_view(final(out)@) == strs_view(old(out)@) + strs_view(src@),
{
    let ghost base = strs_view(out@);
    let mut i: usize = 0;
    while i < src.len()
        invariant
            i <= src.len(),
            strs_view(out@) =~= base + strs_view(src@).take(i as int),
        decreases src.len() - i,
    {
        let ghost before = strs_view(out@);
        out.push(src[i].clone());
        assert(strs_view(out@) =~= before.push(src@[i as int]@));
        assert(strs_view(src@).take(i + 1) =~= strs_view(src@).take(i as int).push(src@[i as int]@));
        i += 1;
    }
    assert(strs_view(src@).take(src.len() as int) =~= strs_view(src@));
}

/// Keeps the first copy of each phrase, in order.
pub fn dedup_preserved_phrase_order(phrases: &mut Vec<String>)
    ensures
        strs_view(final(phrases)@) == strs_view(old(phrases)@).remove_duplicates(Seq::empty()),
{
    let ghost all = strs_view(phrases@);
    let mut out: Vec<String> = Vec::new();
    let mut i: usize = 0;
    while i < phrases.len()
        invariant
            i <= phrases.len(),
            all == strs_view(phrases@),
            strs_view(out@) == all.take(i as int).remove_duplicates(Seq::empty()),
        decreases phrases.len() - i,
    {
        let x = &phrases[i];
        proof {
            let prefix = all.take(i as int);
            assert(all.take(i + 1) =~= prefix + seq![x@]);
            prefix.lemma_remove_duplicates_append(x@, Seq::empty());
            prefix.lemma_remove_duplicates_properties(Seq::empty());
            assert(prefix + Seq::<Seq<char>>::empty() =~= prefix);
        }
        assert(strs_view(out@) == crate::dict::strings_view(out@));
        if !crate::dict::contains_string(&out, x) {
            let ghost before = strs_view(out@);
            out.push(x.clone());
            assert(strs_view(out@) =~= before + seq![x@]);
        }
        i += 1;
    }
    assert(all.take(phrases.len() as int) =~= all);
    *phrases = out;
}

pub open spec fn has_char_count(n: usize) -> spec_fn(Seq<char>) -> bool {
    |p: Seq<char>| count_non_ws(p) == n
}

pub open spec fn lacks_char_count(n: usize) -> spec_fn(Seq<char>) -> bool {
    |p: Seq<char>| count_non_ws(p) != n
}

/// The phrases of `n` characters first, then the others, each group in its
/// order.
pub open spec fn preferred_length_first(phrases: Seq<Seq<char>>, n: usize) -> Seq<Seq<char>> {
    phrases.filter(has_char_count(n)) + phrases.filter(lacks_char_count(n))
}

/// Puts the phrases of the preferred length (in characters, white space
/// not counted) first, keeping the order within each group.
pub fn prioritize_preserved_phrase_length(phrases: &mut Vec<String>, preferred_len: usize)
    ensures
        strs_view(final(phrases)@) == preferred_length_first(strs_view(old(phrases)@), preferred_len),
{
    let ghost ps = strs_view(phrases@);
    let ghost f = has_char_count(preferred_len);
    let ghost g = lacks_char_count(preferred_len);
    let mut preferred: Vec<String> = Vec::new();
    let mut rest: Vec<String> = Vec::new();
    let mut i: usize = 0;
    while i < phrases.len()
        invariant
            i <= phrases.len(),
            ps == strs_view(phrases@),
            f == has_char_count(preferred_len),
            g == lacks_char_count(preferred_len),
            strs_view(preferred@) == ps.take(i as int).filter(f),
            strs_view(rest@) == ps.take(i as int).filter(g),
        decreases phrases.len() - i,
    {
        let ghost x = ps[i as int];
        assert(ps.take(i + 1) =~= ps.take(i as int).push(x));
        proof {
            ps.take(i as int).lemma_filter_push(x, f);
            ps.take(i as int).lemma_filter_push(x, g);
        }
        let c = phrase_char_count(phrases[i].as_str());
        let ghost before_p = strs_view(preferred@);
        let ghost before_r = strs_view(rest@);
        if c == preferred_len {
            preferred.push(phrases[i].clone());
            assert(strs_view(preferred@) =~= before_p.push(x));
        } else {
            rest.push(phrases[i].clone());
            assert(strs_view(rest@) =~= before_r.push(x));
        }
        i += 1;
    }
    assert(ps.take(i as int) =~= ps);
    let ghost pv = strs_view(preferred@);
    let mut j: usize = 0;
    while j < rest.len()
        invariant
            j <= rest.len(),
            strs_view(preferred@) =~= pv + strs_view(rest@).take(j as int),
        decreases rest.len() - j,
    {
        let ghost before = strs_view(preferred@);
        preferred.push(rest[j].clone());
        assert(strs_view(preferred@) =~= before.push(rest@[j as int]@));
        assert(strs_view(rest@).take(j + 1) =~= strs_view(rest@).take(j as int).push(rest@[j as int]@));
        j += 1;
    }
    assert(strs_view(rest@).take(j as int) =~= strs_view(rest@));
    *phrases = preferred;
}

/// Which candidates are cold: those whose phrase comes from the extension
/// layer of the lexicon.
pub open spec fn cold_flags(metas: Seq<CandidateMeta>) -> Seq<bool> {
    metas.map_values(|m: CandidateMeta| m.source_layer == LexiconLayer::Ext)
}

/// Cold lexicon candidates, those of the extension layer, go to the tail
/// when the input is not full pinyin, each group keeping its order; full
/// pinyin keeps the list as it is.
pub open spec fn cold_demoted(metas: Seq<CandidateMeta>, intent: InputIntent) -> Seq<usize> {
    let cold = cold_flags(metas);
    if intent is FullPinyin {
        identity(cold.len())
    } else {
        flagged(cold, cold.len() as int, false) + flagged(cold, cold.len() as int, true)
    }
}

/// Moves the candidates of the extension layer (by their metadata `metas`)
/// after the others when the input is not full pinyin; gives the new order
/// as positions.
pub fn demote_cold_non_full_lexicon_candidates(metas: &Vec<CandidateMeta>, intent: InputIntent) -> (r: Vec<usize>)
    ensures
        r@ == cold_demoted(metas@, intent),
{
    let mut cold: Vec<bool> = Vec::new();
    let mut i: usize = 0;
    while i < metas.len()
        invariant
            i <= metas.len(),
            cold@ =~= cold_flags(metas@).take(i as int),
        decreases metas.len() - i,
    {
        cold.push(metas[i].source_layer == LexiconLayer::Ext);
        i += 1;
    }
    assert(cold@ =~= cold_flags(metas@));
    match intent {
        InputIntent::FullPinyin => identity_vec(cold.len()),
        _ => {
            let mut warm = flagged_positions(&cold, false);
            let mut tail = flagged_positions(&cold, true);
            warm.append(&mut tail);
            warm
        },
    }
}

} // verus!
