//! Ordering phrases by their lexicon frequency: the more frequent first,
//! equal frequencies in code-point order of the phrase, and copies of one
//! phrase in their original order. Frequencies come from the lexicon, one
//! per phrase, as plain values.
use vstd::prelude::*;
use crate::order::{
    chars_before, chars_before_exec, lemma_chars_before_strict_total, lemma_chars_before_transitive,
    lemma_sorted_listing_unique, sorted_listing, strict_order,
};
use crate::learning::phrase_char_count;
use crate::pagination::{identity, SHORT_INPUT_EXACT_FRONT_LIMIT_FOUR, SHORT_INPUT_EXACT_FRONT_LIMIT_THREE, SHORT_INPUT_EXACT_FRONT_LIMIT_TWO};
use crate::phrase_head::MULTI_SYLL_PHRASE_HEAD_MIN;
use crate::postprocess::{flagged, flagged_positions, identity_vec, lemma_flagged_has, lemma_flagged_shape};
use crate::text::{chars_of, count_non_ws, eq_vec};
use crate::user_lexicon::strs_view;

verus! {

/// Position `i` ranks before position `j`: its frequency is higher, or equal
/// with a phrase first in code-point order, or it holds the same phrase at
/// an earlier position.
pub open spec fn ranks_before(freqs: Seq<u64>, phrases: Seq<Seq<char>>, i: int, j: int) -> bool {
    ||| freqs[i] > freqs[j]
    ||| (freqs[i] == freqs[j] && chars_before(phrases[i], phrases[j]))
    ||| (freqs[i] == freqs[j] && phrases[i] == phrases[j] && i < j)
}

pub open spec fn rank_order(freqs: Seq<u64>, phrases: Seq<Seq<char>>) -> spec_fn(int, int) -> bool {
    |i: int, j: int| ranks_before(freqs, phrases, i, j)
}

pub open spec fn member_of(members: Seq<bool>) -> spec_fn(int) -> bool {
    |j: int| 0 <= j < members.len() && members[j]
}

/// `r` lists every position whose member flag is set once, in frequency
/// order.
pub open spec fn is_frequency_order(r: Seq<usize>, freqs: Seq<u64>, phrases: Seq<Seq<char>>, members: Seq<bool>) -> bool {
    sorted_listing(r, member_of(members), rank_order(freqs, phrases))
}

proof fn lemma_ranks_before_strict_total(freqs: Seq<u64>, phrases: Seq<Seq<char>>, i: int, j: int)
    ensures
        !(ranks_before(freqs, phrases, i, j) && ranks_before(freqs, phrases, j, i)),
        i != j ==> ranks_before(freqs, phrases, i, j) || ranks_before(freqs, phrases, j, i),
{
    lemma_chars_before_strict_total(phrases[i], phrases[j]);
}

proof fn lemma_ranks_before_transitive(freqs: Seq<u64>, phrases: Seq<Seq<char>>, i: int, j: int, k: int)
    requires
        ranks_before(freqs, phrases, i, j),
        ranks_before(freqs, phrases, j, k),
    ensures
        ranks_before(freqs, phrases, i, k),
{
    lemma_chars_before_strict_total(phrases[i], phrases[j]);
    lemma_chars_before_strict_total(phrases[j], phrases[k]);
    lemma_chars_before_strict_total(phrases[i], phrases[k]);
    if chars_before(phrases[i], phrases[j]) && chars_before(phrases[j], phrases[k]) {
        lemma_chars_before_transitive(phrases[i], phrases[j], phrases[k]);
    }
}

proof fn lemma_rank_order_strict(freqs: Seq<u64>, phrases: Seq<Seq<char>>)
    ensures
        strict_order(rank_order(freqs, phrases)),
{
    let before = rank_order(freqs, phrases);
    assert forall|a: int, b: int| #[trigger] before(a, b) implies !before(b, a) by {
        lemma_ranks_before_strict_total(freqs, phrases, a, b);
    }
}

/// The frequency order of a set of positions is unique.
pub proof fn lemma_frequency_order_unique(
    r1: Seq<usize>,
    r2: Seq<usize>,
    freqs: Seq<u64>,
    phrases: Seq<Seq<char>>,
    members: Seq<bool>,
)
    requires
        is_frequency_order(r1, freqs, phrases, members),
        is_frequency_order(r2, freqs, phrases, members),
    ensures
        r1 == r2,
{
    lemma_rank_order_strict(freqs, phrases);
    lemma_sorted_listing_unique(r1, r2, member_of(members), rank_order(freqs, phrases));
}

pub open spec fn vecs_view(v: Seq<Vec<char>>) -> Seq<Seq<char>> {
    v.map_values(|c: Vec<char>| c@)
}

fn chars_of_all(phrases: &Vec<String>) -> (r: Vec<Vec<char>>)
    ensures
        vecs_view(r@) == strs_view(phrases@),
{
    let mut out: Vec<Vec<char>> = Vec::new();
    let mut i: usize = 0;
    while i < phrases.len()
        invariant
            i <= phrases.len(),
            vecs_view(out@) == strs_view(phrases@).take(i as int),
        decreases phrases.len() - i,
    {
        let c = chars_of(phrases[i].as_str());
        let ghost before = vecs_view(out@);
        out.push(c);
        assert(vecs_view(out@) =~= before.push(phrases@[i as int]@));
        assert(strs_view(phrases@).take(i + 1) =~= strs_view(phrases@).take(i as int).push(phrases@[i as int]@));
        i += 1;
    }
    assert(strs_view(phrases@).take(phrases.len() as int) =~= strs_view(phrases@));
    out
}

fn ranks_before_exec(freqs: &Vec<u64>, chars: &Vec<Vec<char>>, i: usize, j: usize) -> (r: bool)
    requires
        i < freqs.len(),
        j < freqs.len(),
        freqs.len() == chars.len(),
    ensures
        r == ranks_before(freqs@, vecs_view(chars@), i as int, j as int),
{
    let ghost ph = vecs_view(chars@);
    assert(ph[i as int] == chars@[i as int]@ && ph[j as int] == chars@[j as int]@);
    if freqs[i] != freqs[j] {
        freqs[i] > freqs[j]
    } else if chars_before_exec(&chars[i], &chars[j]) {
        true
    } else {
        i < j && eq_vec(&chars[i], &chars[j])
    }
}

/// The first position in `out` whose entry `x` ranks before, or its length.
fn insertion_point(freqs: &Vec<u64>, chars: &Vec<Vec<char>>, out: &Vec<usize>, x: usize) -> (p: usize)
    requires
        x < freqs.len(),
        freqs.len() == chars.len(),
        forall|i: int| 0 <= i < out@.len() ==> #[trigger] out@[i] < x,
    ensures
        p <= out.len(),
        forall|k: int| 0 <= k < p ==> !ranks_before(freqs@, vecs_view(chars@), x as int, #[trigger] out@[k] as int),
        p < out.len() ==> ranks_before(freqs@, vecs_view(chars@), x as int, out@[p as int] as int),
{
    let mut p: usize = 0;
    while p < out.len()
        invariant
            p <= out.len(),
            x < freqs.len(),
            freqs.len() == chars.len(),
            forall|i: int| 0 <= i < out@.len() ==> #[trigger] out@[i] < x,
            forall|k: int| 0 <= k < p ==> !ranks_before(freqs@, vecs_view(chars@), x as int, #[trigger] out@[k] as int),
        decreases out.len() - p,
    {
        assert(out@[p as int] < x);
        if ranks_before_exec(freqs, chars, x, out[p]) {
            return p;
        }
        p += 1;
    }
    p
}

/// The member positions, most frequent first.
pub fn frequency_order(phrases: &Vec<String>, frequencies: &Vec<u64>, members: &Vec<bool>) -> (r: Vec<usize>)
    requires
        phrases.len() == frequencies.len(),
        members.len() == frequencies.len(),
    ensures
        is_frequency_order(r@, frequencies@, strs_view(phrases@), members@),
{
    let chars = chars_of_all(phrases);
    assert(chars@.len() == vecs_view(chars@).len());
    let ghost fr = frequencies@;
    let ghost ph = strs_view(phrases@);
    let ghost rb = rank_order(fr, ph);
    let ghost mem = member_of(members@);
    let n = members.len();
    let mut out: Vec<usize> = Vec::new();
    let mut x: usize = 0;
    while x < n
        invariant
            n == members.len(),
            n == frequencies.len(),
            n == chars.len(),
            x <= n,
            fr == frequencies@,
            ph == vecs_view(chars@),
            rb == rank_order(fr, ph),
            mem == member_of(members@),
            forall|i: int| 0 <= i < out@.len() ==> #[trigger] mem(out@[i] as int),
            forall|i: int| 0 <= i < out@.len() ==> #[trigger] out@[i] < x,
            forall|j: int| 0 <= j < x && #[trigger] mem(j) ==> exists|i: int| 0 <= i < out@.len() && #[trigger] out@[i] as int == j,
            forall|i: int, k: int| 0 <= i < k < out@.len() ==> rb(#[trigger] out@[i] as int, #[trigger] out@[k] as int),
        decreases n - x,
    {
        if members[x] {
            let p = insertion_point(frequencies, &chars, &out, x);
            let ghost old_out = out@;
            out.insert(p, x);
            proof {
                let s = out@;
                assert(s =~= old_out.insert(p as int, x));
                assert forall|i: int| 0 <= i < s.len() implies #[trigger] mem(s[i] as int) && s[i] < x + 1 by {
                    if i < p {
                        assert(s[i] == old_out[i]);
                    } else if i > p {
                        assert(s[i] == old_out[i - 1]);
                    }
                }
                assert forall|j: int| 0 <= j < x + 1 && #[trigger] mem(j) implies exists|i: int| 0 <= i < s.len() && #[trigger] s[i] as int == j by {
                    if j == x {
                        assert(s[p as int] as int == j);
                    } else {
                        let i = choose|i: int| 0 <= i < old_out.len() && #[trigger] old_out[i] as int == j;
                        if i < p {
                            assert(s[i] == old_out[i]);
                        } else {
                            assert(s[i + 1] == old_out[i]);
                        }
                    }
                }
                assert forall|i: int, k: int| 0 <= i < k < s.len() implies rb(#[trigger] s[i] as int, #[trigger] s[k] as int) by {
                    if k < p {
                        assert(s[i] == old_out[i] && s[k] == old_out[k]);
                    } else if i > p {
                        assert(s[i] == old_out[i - 1] && s[k] == old_out[k - 1]);
                    } else if i < p && k > p {
                        assert(s[i] == old_out[i] && s[k] == old_out[k - 1]);
                    } else if k == p {
                        assert(s[i] == old_out[i]);
                        assert(!rb(x as int, old_out[i] as int));
                        assert(old_out[i] < x);
                        lemma_ranks_before_strict_total(fr, ph, old_out[i] as int, x as int);
                    } else {
                        assert(i == p);
                        assert(s[k] == old_out[k - 1]);
                        assert(rb(x as int, old_out[p as int] as int));
                        if k - 1 > p {
                            assert(rb(old_out[p as int] as int, old_out[k - 1] as int));
                            lemma_ranks_before_transitive(fr, ph, x as int, old_out[p as int] as int, old_out[k - 1] as int);
                        }
                    }
                }
            }
        } else {
            proof {
                assert forall|j: int| 0 <= j < x + 1 && #[trigger] mem(j) implies exists|i: int| 0 <= i < out@.len() && #[trigger] out@[i] as int == j by {
                    assert(j != x);
                }
            }
        }
        x += 1;
    }
    proof {
        assert forall|j: int| #[trigger] mem(j) implies exists|i: int| 0 <= i < out@.len() && #[trigger] out@[i] as int == j by {
            assert(0 <= j < x);
        }
    }
    out
}

/// As many `true` flags as `n`.
pub open spec fn all_true(n: nat) -> Seq<bool> {
    Seq::new(n, |i: int| true)
}

/// As many zero frequencies as `n`.
pub open spec fn zeros(n: nat) -> Seq<u64> {
    Seq::new(n, |i: int| 0u64)
}

/// The positions of `phrases` in frequency order.
pub open spec fn by_frequency(freqs: Seq<u64>, phrases: Seq<Seq<char>>) -> Seq<usize> {
    choose|r: Seq<usize>| is_frequency_order(r, freqs, phrases, all_true(phrases.len()))
}

/// `phrases` sorted by frequency: the more frequent first, equal
/// frequencies in code-point order, copies of a phrase in their order.
pub open spec fn frequency_sorted(phrases: Seq<Seq<char>>, freqs: Seq<u64>) -> Seq<Seq<char>> {
    by_frequency(freqs, phrases).map_values(|i: usize| phrases[i as int])
}

proof fn lemma_by_frequency(r: Seq<usize>, freqs: Seq<u64>, phrases: Seq<Seq<char>>)
    requires
        is_frequency_order(r, freqs, phrases, all_true(phrases.len())),
    ensures
        by_frequency(freqs, phrases) == r,
{
    let c = by_frequency(freqs, phrases);
    assert(is_frequency_order(c, freqs, phrases, all_true(phrases.len())));
    lemma_frequency_order_unique(c, r, freqs, phrases, all_true(phrases.len()));
}

/// A list of at most one phrase is already sorted.
proof fn lemma_short_list_sorted(phrases: Seq<Seq<char>>, freqs: Seq<u64>)
    requires
        phrases.len() <= 1,
    ensures
        frequency_sorted(phrases, freqs) == phrases,
{
    let r: Seq<usize> = Seq::new(phrases.len(), |i: int| i as usize);
    let mem = member_of(all_true(phrases.len()));
    assert forall|j: int| #[trigger] mem(j) implies exists|i: int| 0 <= i < r.len() && #[trigger] r[i] as int == j by {
        assert(r[j] as int == j);
    }
    lemma_by_frequency(r, freqs, phrases);
    assert(frequency_sorted(phrases, freqs) =~= phrases);
}

fn all_true_vec(n: usize) -> (r: Vec<bool>)
    ensures
        r@ == all_true(n as nat),
{
    let mut out: Vec<bool> = Vec::new();
    let mut i: usize = 0;
    while i < n
        invariant
            i <= n,
            out@ == all_true(i as nat),
        decreases n - i,
    {
        out.push(true);
        i += 1;
        assert(out@ =~= all_true(i as nat));
    }
    out
}

fn zeros_vec(n: usize) -> (r: Vec<u64>)
    ensures
        r@ == zeros(n as nat),
{
    let mut out: Vec<u64> = Vec::new();
    let mut i: usize = 0;
    while i < n
        invariant
            i <= n,
            out@ == zeros(i as nat),
        decreases n - i,
    {
        out.push(0);
        i += 1;
        assert(out@ =~= zeros(i as nat));
    }
    out
}

/// `phrases` sorted by the frequencies given for them.
pub(crate) fn sorted_by_frequency(phrases: &Vec<String>, freqs: &Vec<u64>) -> (r: Vec<String>)
    requires
        freqs.len() == phrases.len(),
    ensures
        strs_view(r@) == frequency_sorted(strs_view(phrases@), freqs@),
{
    let members = all_true_vec(phrases.len());
    let order = frequency_order(phrases, freqs, &members);
    let ghost ph = strs_view(phrases@);
    proof {
        lemma_by_frequency(order@, freqs@, ph);
    }
    let mut out: Vec<String> = Vec::new();
    let mut k: usize = 0;
    while k < order.len()
        invariant
            k <= order.len(),
            ph == strs_view(phrases@),
            is_frequency_order(order@, freqs@, ph, all_true(ph.len())),
            strs_view(out@) =~= order@.take(k as int).map_values(|i: usize| ph[i as int]),
        decreases order.len() - k,
    {
        let i = order[k];
        assert(member_of(all_true(ph.len()))(order@[k as int] as int));
        let ghost before = strs_view(out@);
        out.push(phrases[i].clone());
        assert(strs_view(out@) =~= before.push(ph[i as int]));
        assert(order@.take(k + 1) =~= order@.take(k as int).push(i));
        k += 1;
    }
    assert(order@.take(order.len() as int) =~= order@);
    out
}

/// Sorts the preserved phrases by lexicon frequency, the more frequent
/// first, equal frequencies in code-point order. Without a lexicon
/// (`frequencies` is `None`) the list stays as it is; otherwise
/// `frequencies` gives each phrase's frequency, in the list's order.
pub fn sort_preserved_phrases_by_lexicon_frequency(phrases: &mut Vec<String>, frequencies: Option<&Vec<u64>>)
    requires
        match frequencies {
            Some(f) => f.len() == old(phrases).len(),
            None => true,
        },
    ensures
        strs_view(final(phrases)@) == match frequencies {
            Some(f) => frequency_sorted(strs_view(old(phrases)@), f@),
            None => strs_view(old(phrases)@),
        },
{
    if phrases.len() <= 1 {
        proof {
            if let Some(f) = frequencies {
                lemma_short_list_sorted(strs_view(phrases@), f@);
            }
        }
        return;
    }
    let freqs = match frequencies {
        Some(f) => f,
        None => {
            return;
        },
    };
    *phrases = sorted_by_frequency(phrases, freqs);
}

/// Sorts the phrases that compete for the first place of a short
/// abbreviation: by lexicon frequency when a lexicon gives `frequencies`
/// (one per phrase, in the list's order), else in code-point order alone.
pub fn sort_short_abbrev_top1_phrases(phrases: &mut Vec<String>, frequencies: Option<&Vec<u64>>)
    requires
        match frequencies {
            Some(f) => f.len() == old(phrases).len(),
            None => true,
        },
    ensures
        strs_view(final(phrases)@) == match frequencies {
            Some(f) => frequency_sorted(strs_view(old(phrases)@), f@),
            None => frequency_sorted(strs_view(old(phrases)@), zeros(old(phrases)@.len())),
        },
{
    if phrases.len() <= 1 {
        proof {
            match frequencies {
                Some(f) => lemma_short_list_sorted(strs_view(phrases@), f@),
                None => lemma_short_list_sorted(strs_view(phrases@), zeros(phrases@.len())),
            }
        }
        return;
    }
    match frequencies {
        Some(f) => {
            *phrases = sorted_by_frequency(phrases, f);
        },
        None => {
            let z = zeros_vec(phrases.len());
            *phrases = sorted_by_frequency(phrases, &z);
        },
    }
}

/// A lexicon entry as plain values: its phrase and its frequency.
pub open spec fn lexicon_entries_view(v: Seq<(String, u64)>) -> Seq<(Seq<char>, u64)> {
    v.map_values(|e: (String, u64)| (e.0@, e.1))
}

/// `p` is a phrase of `len` characters (white space not counted) that
/// some entry holds.
pub open spec fn known_phrase(es: Seq<(Seq<char>, u64)>, len: usize, p: Seq<char>) -> bool {
    count_non_ws(p) == len && exists|i: int| 0 <= i < es.len() && (#[trigger] es[i]).0 == p
}

/// The frequency that the entries give `p`: that of its last entry, and
/// 0 without one.
pub open spec fn entry_frequency(es: Seq<(Seq<char>, u64)>, p: Seq<char>) -> u64
    decreases es.len(),
{
    if es.len() == 0 {
        0
    } else if es.last().0 == p {
        es.last().1
    } else {
        entry_frequency(es.drop_last(), p)
    }
}

/// The entries hold two different phrases of `len` characters.
pub open spec fn several_known(es: Seq<(Seq<char>, u64)>, len: usize) -> bool {
    exists|i: int, j: int|
        0 <= i < es.len() && 0 <= j < es.len() && count_non_ws((#[trigger] es[i]).0) == len
            && count_non_ws((#[trigger] es[j]).0) == len && es[i].0 != es[j].0
}

/// Which candidates the frequency order governs: the ordinary system rows
/// whose phrase the entries know with `len` characters.
pub open spec fn strict_eligible(
    phrases: Seq<Seq<char>>,
    system_rows: Seq<bool>,
    es: Seq<(Seq<char>, u64)>,
    len: usize,
) -> Seq<bool> {
    Seq::new(phrases.len(), |i: int| system_rows[i] && known_phrase(es, len, phrases[i]))
}

/// Each candidate's frequency by the entries.
pub open spec fn strict_frequencies(phrases: Seq<Seq<char>>, es: Seq<(Seq<char>, u64)>) -> Seq<u64> {
    Seq::new(phrases.len(), |i: int| entry_frequency(es, phrases[i]))
}

/// `r` leaves every candidate that is not `eligible` at its place, and
/// fills the places of the eligible ones, in order, with them in frequency
/// order.
pub open spec fn is_strict_arrangement(r: Seq<usize>, phrases: Seq<Seq<char>>, eligible: Seq<bool>, freqs: Seq<u64>) -> bool {
    &&& r.len() == phrases.len()
    &&& forall|i: int| 0 <= i < r.len() && !eligible[i] ==> #[trigger] r[i] == i
    &&& is_frequency_order(
        flagged(eligible, phrases.len() as int, true).map_values(|p: usize| r[p as int]),
        freqs,
        phrases,
        eligible,
    )
}

proof fn lemma_flagged_len_mono(flags: Seq<bool>, i: int, n: int)
    requires
        0 <= i <= n,
    ensures
        flagged(flags, i, true).len() <= flagged(flags, n, true).len(),
    decreases n - i,
{
    if i < n {
        lemma_flagged_len_mono(flags, i, n - 1);
    }
}

proof fn lemma_flagged_index(flags: Seq<bool>, n: int, k: int)
    requires
        0 <= n <= flags.len(),
        flags.len() <= usize::MAX,
        0 <= k < flagged(flags, n, true).len(),
    ensures
        flagged(flags, flagged(flags, n, true)[k] as int, true).len() == k,
    decreases n,
{
    lemma_flagged_shape(flags, n, true);
    if n > 0 {
        let p = flagged(flags, n - 1, true);
        if k < p.len() {
            if flags[n - 1] {
                assert(flagged(flags, n, true)[k] == p[k]);
            }
            lemma_flagged_index(flags, n - 1, k);
        }
    }
}

/// Keeping every candidate in place is the arrangement whenever the
/// eligible candidates already stand in frequency order.
proof fn lemma_identity_arrangement(phrases: Seq<Seq<char>>, eligible: Seq<bool>, freqs: Seq<u64>)
    requires
        eligible.len() == phrases.len(),
        freqs.len() == phrases.len(),
        phrases.len() <= usize::MAX,
        forall|i: int, j: int|
            0 <= i < j < phrases.len() && eligible[i] && eligible[j] ==> ranks_before(freqs, phrases, i, j),
    ensures
        is_strict_arrangement(identity(phrases.len()), phrases, eligible, freqs),
{
    let n = phrases.len() as int;
    let id = identity(phrases.len());
    let f = flagged(eligible, n, true);
    lemma_flagged_shape(eligible, n, true);
    let m = f.map_values(|p: usize| id[p as int]);
    assert(m =~= f);
    let mem = member_of(eligible);
    assert forall|j: int| #[trigger] mem(j) implies exists|i: int| 0 <= i < f.len() && #[trigger] f[i] as int == j by {
        lemma_flagged_has(eligible, n, true, j);
    }
    assert forall|i: int, k: int| 0 <= i < k < f.len() implies rank_order(freqs, phrases)(#[trigger] f[i] as int, #[trigger] f[k] as int) by {
        assert(f[i] < f[k]);
    }
}

proof fn lemma_eligible_slot(eligible: Seq<bool>, n: int, p: int) -> (k: int)
    requires
        0 <= p < n == eligible.len(),
        n <= usize::MAX,
        eligible[p],
    ensures
        0 <= k < flagged(eligible, n, true).len(),
        flagged(eligible, n, true)[k] == p,
{
    lemma_flagged_has(eligible, n, true, p);
    choose|k: int| 0 <= k < flagged(eligible, n, true).len() && flagged(eligible, n, true)[k] == p as usize
}

/// The arrangement keeps every candidate exactly once: it is a permutation
/// of the positions.
pub proof fn lemma_strict_arrangement_is_permutation(
    r: Seq<usize>,
    phrases: Seq<Seq<char>>,
    eligible: Seq<bool>,
    freqs: Seq<u64>,
)
    requires
        eligible.len() == phrases.len(),
        phrases.len() <= usize::MAX,
        is_strict_arrangement(r, phrases, eligible, freqs),
    ensures
        forall|i: int| 0 <= i < r.len() ==> #[trigger] r[i] < r.len(),
        r.no_duplicates(),
{
    let n = phrases.len() as int;
    let f = flagged(eligible, n, true);
    let m = f.map_values(|p: usize| r[p as int]);
    lemma_flagged_shape(eligible, n, true);
    assert forall|i: int| 0 <= i < r.len() implies #[trigger] r[i] < r.len() && (eligible[i] ==> eligible[r[i] as int]) by {
        if eligible[i] {
            let k = lemma_eligible_slot(eligible, n, i);
            assert(m[k] == r[i]);
            assert(member_of(eligible)(m[k] as int));
        }
    }
    assert forall|a: int, b: int| 0 <= a < r.len() && 0 <= b < r.len() && a != b implies r[a] != r[b] by {
        if eligible[a] && eligible[b] {
            let ka = lemma_eligible_slot(eligible, n, a);
            let kb = lemma_eligible_slot(eligible, n, b);
            assert(m[ka] == r[a] && m[kb] == r[b]);
            if ka < kb {
                lemma_ranks_before_strict_total(freqs, phrases, m[ka] as int, m[kb] as int);
            } else {
                lemma_ranks_before_strict_total(freqs, phrases, m[kb] as int, m[ka] as int);
            }
        }
    }
}

/// The arrangement is unique: two arrangements of the same candidates agree.
pub proof fn lemma_strict_arrangement_unique(
    r1: Seq<usize>,
    r2: Seq<usize>,
    phrases: Seq<Seq<char>>,
    eligible: Seq<bool>,
    freqs: Seq<u64>,
)
    requires
        eligible.len() == phrases.len(),
        phrases.len() <= usize::MAX,
        is_strict_arrangement(r1, phrases, eligible, freqs),
        is_strict_arrangement(r2, phrases, eligible, freqs),
    ensures
        r1 == r2,
{
    let n = phrases.len() as int;
    let f = flagged(eligible, n, true);
    let m1 = f.map_values(|p: usize| r1[p as int]);
    let m2 = f.map_values(|p: usize| r2[p as int]);
    lemma_frequency_order_unique(m1, m2, freqs, phrases, eligible);
    assert forall|i: int| 0 <= i < n implies r1[i] == r2[i] by {
        if eligible[i] {
            let k = lemma_eligible_slot(eligible, n, i);
            assert(m1[k] == m2[k]);
        }
    }
    assert(r1 =~= r2);
}

fn known_phrase_exec(es: &Vec<(String, u64)>, len: usize, p: &String) -> (r: bool)
    ensures
        r == known_phrase(lexicon_entries_view(es@), len, p@),
{
    let ghost ev = lexicon_entries_view(es@);
    if phrase_char_count(p.as_str()) != len {
        return false;
    }
    let mut i: usize = 0;
    while i < es.len()
        invariant
            i <= es.len(),
            ev == lexicon_entries_view(es@),
            count_non_ws(p@) == len,
            forall|k: int| 0 <= k < i ==> (#[trigger] ev[k]).0 != p@,
        decreases es.len() - i,
    {
        assert(ev[i as int] == (es@[i as int].0@, es@[i as int].1));
        if es[i].0 == *p {
            assert(ev[i as int].0 == p@);
            return true;
        }
        i += 1;
    }
    false
}

pub(crate) fn entry_frequency_exec(es: &Vec<(String, u64)>, p: &String) -> (r: u64)
    ensures
        r == entry_frequency(lexicon_entries_view(es@), p@),
{
    let ghost ev = lexicon_entries_view(es@);
    let mut i = es.len();
    assert(ev.take(i as int) =~= ev);
    while i > 0
        invariant
            i <= es.len(),
            ev == lexicon_entries_view(es@),
            entry_frequency(ev, p@) == entry_frequency(ev.take(i as int), p@),
        decreases i,
    {
        let ghost t = ev.take(i as int);
        assert(t.drop_last() =~= ev.take(i - 1));
        assert(t.last() == ev[i - 1]);
        assert(ev[i - 1] == (es@[i - 1].0@, es@[i - 1].1));
        if es[i - 1].0 == *p {
            return es[i - 1].1;
        }
        i -= 1;
    }
    assert(ev.take(0) =~= Seq::<(Seq<char>, u64)>::empty());
    0
}

fn several_known_exec(es: &Vec<(String, u64)>, len: usize) -> (r: bool)
    ensures
        r == several_known(lexicon_entries_view(es@), len),
{
    let ghost ev = lexicon_entries_view(es@);
    let mut first: Option<usize> = None;
    let mut i: usize = 0;
    while i < es.len()
        invariant
            i <= es.len(),
            ev == lexicon_entries_view(es@),
            match first {
                None => forall|k: int| 0 <= k < i ==> count_non_ws((#[trigger] ev[k]).0) != len,
                Some(a) => a < i && count_non_ws(ev[a as int].0) == len && forall|k: int|
                    0 <= k < i && count_non_ws((#[trigger] ev[k]).0) == len ==> ev[k].0 == ev[a as int].0,
            },
        decreases es.len() - i,
    {
        if phrase_char_count(es[i].0.as_str()) == len {
            match first {
                None => {
                    first = Some(i);
                },
                Some(a) => {
                    if es[i].0 != es[a].0 {
                        assert(count_non_ws(ev[i as int].0) == len && count_non_ws(ev[a as int].0) == len);
                        assert(ev[i as int].0 != ev[a as int].0);
                        return true;
                    }
                },
            }
        }
        i += 1;
    }
    proof {
        if several_known(ev, len) {
            let (x, y) = choose|x: int, y: int|
                0 <= x < ev.len() && 0 <= y < ev.len() && count_non_ws((#[trigger] ev[x]).0) == len
                    && count_non_ws((#[trigger] ev[y]).0) == len && ev[x].0 != ev[y].0;
            assert(count_non_ws(ev[x].0) == len);
            assert(count_non_ws(ev[y].0) == len);
        }
    }
    false
}

/// Keeps ordinary system words that match the key exactly in the order of
/// their lexicon frequency, in the places they already hold; every other
/// candidate keeps its place. `phrases` are the candidates in ranked order,
/// `system_rows` marks the ordinary system rows without user priority, and
/// `entries` are the lexicon's entries for the key with their frequencies
/// (`None` when the lexicon has none, or the intent is neither full pinyin
/// nor an abbreviation). Gives the new order as positions.
pub fn enforce_strict_system_lexicon_frequency_order(
    phrases: &Vec<String>,
    system_rows: &Vec<bool>,
    entries: Option<&Vec<(String, u64)>>,
    phrase_len: usize,
) -> (r: Vec<usize>)
    requires
        system_rows.len() == phrases.len(),
    ensures
        (phrase_len < 2 || entries is None) ==> r@ == identity(phrases@.len()),
        entries matches Some(es) ==> (phrase_len >= 2 ==> is_strict_arrangement(
            r@,
            strs_view(phrases@),
            strict_eligible(strs_view(phrases@), system_rows@, lexicon_entries_view(es@), phrase_len),
            strict_frequencies(strs_view(phrases@), lexicon_entries_view(es@)),
        )),
{
    let n = phrases.len();
    let ghost ph = strs_view(phrases@);
    if n <= 1 || phrase_len < 2 {
        proof {
            if n <= 1 && entries.is_some() {
                let es = entries.unwrap();
                let ev = lexicon_entries_view(es@);
                lemma_identity_arrangement(ph, strict_eligible(ph, system_rows@, ev, phrase_len), strict_frequencies(ph, ev));
            }
        }
        return identity_vec(n);
    }
    let es = match entries {
        Some(es) => es,
        None => {
            return identity_vec(n);
        },
    };
    let ghost ev = lexicon_entries_view(es@);
    let ghost elig = strict_eligible(ph, system_rows@, ev, phrase_len);
    let ghost fr = strict_frequencies(ph, ev);
    if !several_known_exec(es, phrase_len) {
        proof {
            assert forall|i: int, j: int| 0 <= i < j < ph.len() && elig[i] && elig[j] implies ranks_before(fr, ph, i, j) by {
                let a = choose|a: int| 0 <= a < ev.len() && (#[trigger] ev[a]).0 == ph[i];
                let b = choose|b: int| 0 <= b < ev.len() && (#[trigger] ev[b]).0 == ph[j];
                assert(count_non_ws(ev[a].0) == phrase_len && count_non_ws(ev[b].0) == phrase_len);
                assert(ph[i] == ph[j]);
            }
            lemma_identity_arrangement(ph, elig, fr);
        }
        return identity_vec(n);
    }
    let mut eligible: Vec<bool> = Vec::new();
    let mut freqs: Vec<u64> = Vec::new();
    let mut count: usize = 0;
    let mut i: usize = 0;
    while i < n
        invariant
            i <= n,
            n == phrases.len(),
            n == system_rows.len(),
            ph == strs_view(phrases@),
            ev == lexicon_entries_view(es@),
            elig == strict_eligible(ph, system_rows@, ev, phrase_len),
            fr == strict_frequencies(ph, ev),
            eligible@ == elig.take(i as int),
            freqs@ == fr.take(i as int),
            count == flagged(elig, i as int, true).len(),
            count <= i,
        decreases n - i,
    {
        let e = system_rows[i] && known_phrase_exec(es, phrase_len, &phrases[i]);
        eligible.push(e);
        freqs.push(entry_frequency_exec(es, &phrases[i]));
        if e {
            count += 1;
        }
        i += 1;
        assert(eligible@ =~= elig.take(i as int));
        assert(freqs@ =~= fr.take(i as int));
    }
    assert(eligible@ =~= elig);
    assert(freqs@ =~= fr);
    if count <= 1 {
        proof {
            assert forall|a: int, b: int| 0 <= a < b < ph.len() && elig[a] && elig[b] implies ranks_before(fr, ph, a, b) by {
                let f = flagged(elig, n as int, true);
                lemma_flagged_has(elig, n as int, true, a);
                lemma_flagged_has(elig, n as int, true, b);
                let x = choose|x: int| 0 <= x < f.len() && f[x] == a as usize;
                let y = choose|y: int| 0 <= y < f.len() && f[y] == b as usize;
                assert(x != y);
            }
            lemma_identity_arrangement(ph, elig, fr);
        }
        return identity_vec(n);
    }
    let order = frequency_order(phrases, &freqs, &eligible);
    let ghost f = flagged(elig, n as int, true);
    proof {
        lemma_flagged_shape(elig, n as int, true);
        let mem = member_of(elig);
        assert(order@.no_duplicates()) by {
            assert forall|a: int, b: int| 0 <= a < order@.len() && 0 <= b < order@.len() && a != b implies order@[a] != order@[b] by {
                if a < b {
                    lemma_ranks_before_strict_total(fr, ph, order@[a] as int, order@[b] as int);
                } else {
                    lemma_ranks_before_strict_total(fr, ph, order@[b] as int, order@[a] as int);
                }
            }
        }
        assert(f.no_duplicates()) by {
            assert forall|a: int, b: int| 0 <= a < f.len() && 0 <= b < f.len() && a != b implies f[a] != f[b] by {
                if a < b {
                    assert(f[a] < f[b]);
                } else {
                    assert(f[b] < f[a]);
                }
            }
        }
        assert(order@.to_set() =~= f.to_set()) by {
            assert forall|x: usize| order@.to_set().contains(x) implies f.to_set().contains(x) by {
                let a = choose|a: int| 0 <= a < order@.len() && order@[a] == x;
                assert(mem(order@[a] as int));
                lemma_flagged_has(elig, n as int, true, x as int);
            }
            assert forall|x: usize| f.to_set().contains(x) implies order@.to_set().contains(x) by {
                let a = choose|a: int| 0 <= a < f.len() && f[a] == x;
                assert(mem(x as int));
                let b = choose|b: int| 0 <= b < order@.len() && #[trigger] order@[b] as int == x as int;
                assert(order@[b] == x);
            }
        }
        order@.unique_seq_to_set();
        f.unique_seq_to_set();
    }
    let mut out: Vec<usize> = Vec::new();
    let mut c: usize = 0;
    let mut j: usize = 0;
    while j < n
        invariant
            j <= n,
            n == phrases.len(),
            eligible@ == elig,
            elig.len() == n,
            order@.len() == f.len(),
            f == flagged(elig, n as int, true),
            c == flagged(elig, j as int, true).len(),
            c <= j,
            out@.len() == j,
            forall|k: int| 0 <= k < j && !elig[k] ==> #[trigger] out@[k] == k,
            forall|k: int| 0 <= k < j && elig[k] ==> #[trigger] out@[k] == order@[flagged(elig, k, true).len() as int],
        decreases n - j,
    {
        if eligible[j] {
            proof {
                lemma_flagged_len_mono(elig, j + 1, n as int);
            }
            out.push(order[c]);
            c += 1;
        } else {
            out.push(j);
        }
        j += 1;
    }
    proof {
        let m = f.map_values(|p: usize| out@[p as int]);
        assert(m =~= order@) by {
            assert forall|k: int| 0 <= k < f.len() implies m[k] == order@[k] by {
                lemma_flagged_index(elig, n as int, k);
                assert(elig[f[k] as int]);
            }
        }
    }
    out
}

/// How many exact full-pinyin phrases guard the front, by syllable count.
pub open spec fn exact_guard_limit(syllable_count: usize) -> usize {
    if syllable_count == 2 {
        SHORT_INPUT_EXACT_FRONT_LIMIT_TWO
    } else if syllable_count == 3 {
        SHORT_INPUT_EXACT_FRONT_LIMIT_THREE
    } else if syllable_count == 4 {
        SHORT_INPUT_EXACT_FRONT_LIMIT_FOUR
    } else {
        MULTI_SYLL_PHRASE_HEAD_MIN
    }
}

pub fn full_pinyin_exact_guard_limit(syllable_count: usize) -> (r: usize)
    ensures
        r == exact_guard_limit(syllable_count),
{
    match syllable_count {
        2 => SHORT_INPUT_EXACT_FRONT_LIMIT_TWO,
        3 => SHORT_INPUT_EXACT_FRONT_LIMIT_THREE,
        4 => SHORT_INPUT_EXACT_FRONT_LIMIT_FOUR,
        _ => MULTI_SYLL_PHRASE_HEAD_MIN,
    }
}

pub open spec fn entry_phrases(es: Seq<(Seq<char>, u64)>) -> Seq<Seq<char>> {
    es.map_values(|e: (Seq<char>, u64)| e.0)
}

pub open spec fn has_count(n: usize) -> spec_fn(Seq<char>) -> bool {
    |p: Seq<char>| count_non_ws(p) == n
}

/// The exact full-pinyin phrases of an input of `syllable_count`
/// syllables: the phrases of the lexicon's entries for the input (`es`)
/// with that many characters, most frequent first, at most the guard
/// limit of them.
pub open spec fn exact_full_pinyin_list(es: Seq<(Seq<char>, u64)>, syllable_count: usize) -> Seq<Seq<char>> {
    let cand = entry_phrases(es).filter(has_count(syllable_count));
    let sorted = frequency_sorted(cand, cand.map_values(|p: Seq<char>| entry_frequency(es, p)));
    let limit = exact_guard_limit(syllable_count);
    if sorted.len() <= limit {
        sorted
    } else {
        sorted.take(limit as int)
    }
}

/// The exact full-pinyin phrases of an input of `syllable_count`
/// syllables, from the lexicon's entries for it with their frequencies
/// (`None` without a lexicon or without entries); none for fewer than two
/// syllables.
pub fn exact_full_pinyin_phrases(entries: Option<&Vec<(String, u64)>>, syllable_count: usize) -> (r: Vec<String>)
    ensures
        strs_view(r@) == match entries {
            Some(es) => if syllable_count < 2 {
                Seq::empty()
            } else {
                exact_full_pinyin_list(lexicon_entries_view(es@), syllable_count)
            },
            None => Seq::empty(),
        },
{
    if syllable_count < 2 {
        let r: Vec<String> = Vec::new();
        assert(strs_view(r@) =~= Seq::<Seq<char>>::empty());
        return r;
    }
    let es = match entries {
        Some(es) => es,
        None => {
            let r: Vec<String> = Vec::new();
            assert(strs_view(r@) =~= Seq::<Seq<char>>::empty());
            return r;
        },
    };
    let ghost ev = lexicon_entries_view(es@);
    let ghost all = entry_phrases(ev);
    let ghost f = has_count(syllable_count);
    let mut cand: Vec<String> = Vec::new();
    let mut i: usize = 0;
    while i < es.len()
        invariant
            i <= es.len(),
            ev == lexicon_entries_view(es@),
            all == entry_phrases(ev),
            f == has_count(syllable_count),
            strs_view(cand@) == all.take(i as int).filter(f),
        decreases es.len() - i,
    {
        proof {
            assert(all.take(i + 1) =~= all.take(i as int).push(all[i as int]));
            all.take(i as int).lemma_filter_push(all[i as int], f);
            assert(all[i as int] == es@[i as int].0@);
        }
        if phrase_char_count(es[i].0.as_str()) == syllable_count {
            let ghost before = strs_view(cand@);
            cand.push(es[i].0.clone());
            assert(strs_view(cand@) =~= before.push(all[i as int]));
        }
        i += 1;
    }
    assert(all.take(es.len() as int) =~= all);
    let ghost cv = strs_view(cand@);
    let mut freqs: Vec<u64> = Vec::new();
    let mut k: usize = 0;
    while k < cand.len()
        invariant
            k <= cand.len(),
            cv == strs_view(cand@),
            ev == lexicon_entries_view(es@),
            freqs@ == cv.map_values(|p: Seq<char>| entry_frequency(ev, p)).take(k as int),
        decreases cand.len() - k,
    {
        freqs.push(entry_frequency_exec(es, &cand[k]));
        k += 1;
        assert(freqs@ =~= cv.map_values(|p: Seq<char>| entry_frequency(ev, p)).take(k as int));
    }
    assert(freqs@ =~= cv.map_values(|p: Seq<char>| entry_frequency(ev, p)));
    let mut sorted = sorted_by_frequency(&cand, &freqs);
    let limit = full_pinyin_exact_guard_limit(syllable_count);
    if sorted.len() > limit {
        let ghost before = strs_view(sorted@);
        sorted.truncate(limit);
        assert(strs_view(sorted@) =~= before.take(limit as int));
    }
    sorted
}

} // verus!
