//! Promotion of preserved phrases to the front of the ranked list. The
//! preserved phrases come in groups, the earlier group first; a preserved
//! phrase that the list lacks is added to it as a new candidate. The result
//! is the list of added phrases and the new order, as positions into the
//! ranked list followed by the added phrases.
use vstd::prelude::*;
use vstd::multiset::Multiset;
use vstd::seq_lib::{lemma_flatten_concat, lemma_multiset_commutative};
use crate::dict::{contains_string, strings_view};
use crate::pagination::{append_all, identity};
use crate::frequency_order::{
    entry_frequency, entry_frequency_exec, frequency_sorted, lexicon_entries_view, sort_short_abbrev_top1_phrases, zeros,
};
use crate::intent::{is_pure_short_abbrev_initial_input, pure_short_abbrev, SHORT_HOTWORD_MAX_CHARS};
use crate::learning::phrase_char_count;
use crate::postprocess::{
    append_strings, dedup_preserved_phrase_order, has_char_count, identity_vec, moved_front, preferred_short_abbrev,
    promote_preferred_short_abbrev,
};
use crate::text::{all_alpha, all_alpha_vec, chars_of, count_non_ws};
use crate::user_lexicon::strs_view;

verus! {

pub open spec fn groups_view(groups: Seq<Vec<String>>) -> Seq<Seq<Seq<char>>> {
    groups.map_values(|g: Vec<String>| strs_view(g@))
}

/// The preserved phrases, each once, in the order of first appearance over
/// the groups.
pub open spec fn desired_phrases(groups: Seq<Seq<Seq<char>>>) -> Seq<Seq<char>> {
    groups.flatten().remove_duplicates(Seq::empty())
}

pub open spec fn absent_from(phrases: Seq<Seq<char>>) -> spec_fn(Seq<char>) -> bool {
    |d: Seq<char>| !phrases.contains(d)
}

/// The preserved phrases that the list lacks, in order: they are added
/// after it.
pub open spec fn added_phrases(phrases: Seq<Seq<char>>, groups: Seq<Seq<Seq<char>>>) -> Seq<Seq<char>> {
    desired_phrases(groups).filter(absent_from(phrases))
}

pub open spec fn holds(ext: Seq<Seq<char>>, d: Seq<char>) -> spec_fn(usize) -> bool {
    |i: usize| ext[i as int] == d
}

pub open spec fn outside(ext: Seq<Seq<char>>, desired: Seq<Seq<char>>) -> spec_fn(usize) -> bool {
    |i: usize| !desired.contains(ext[i as int])
}

/// The positions of `ext` that hold `d`, in order.
pub open spec fn positions_holding(ext: Seq<Seq<char>>, d: Seq<char>) -> Seq<usize> {
    identity(ext.len()).filter(holds(ext, d))
}

pub open spec fn holding_lists(ext: Seq<Seq<char>>, desired: Seq<Seq<char>>) -> Seq<Seq<usize>> {
    desired.map_values(|d: Seq<char>| positions_holding(ext, d))
}

/// The promoted order of `ext`: for each preserved phrase in turn the
/// positions that hold it, then every other position, each in its order.
pub open spec fn priority_order(ext: Seq<Seq<char>>, desired: Seq<Seq<char>>) -> Seq<usize> {
    holding_lists(ext, desired).flatten() + identity(ext.len()).filter(outside(ext, desired))
}

fn flatten_groups(groups: &Vec<Vec<String>>) -> (r: Vec<String>)
    ensures
        strs_view(r@) == groups_view(groups@).flatten(),
{
    let ghost gv = groups_view(groups@);
    let mut out: Vec<String> = Vec::new();
    let mut k: usize = 0;
    while k < groups.len()
        invariant
            k <= groups.len(),
            gv == groups_view(groups@),
            strs_view(out@) == gv.take(k as int).flatten(),
        decreases groups.len() - k,
    {
        proof {
            let one = seq![gv[k as int]];
            lemma_flatten_concat(gv.take(k as int), one);
            one.lemma_flatten_one_element();
            assert(gv.take(k + 1) =~= gv.take(k as int) + one);
        }
        append_strings(&mut out, &groups[k]);
        k += 1;
    }
    assert(gv.take(groups.len() as int) =~= gv);
    out
}

fn positions_holding_exec(ext: &Vec<String>, d: &String) -> (r: Vec<usize>)
    ensures
        r@ == positions_holding(strs_view(ext@), d@),
{
    let ghost ev = strs_view(ext@);
    let ghost f = holds(ev, d@);
    let ghost id = identity(ext.len() as nat);
    let mut out: Vec<usize> = Vec::new();
    let mut i: usize = 0;
    while i < ext.len()
        invariant
            i <= ext.len(),
            ev == strs_view(ext@),
            f == holds(ev, d@),
            id == identity(ext.len() as nat),
            out@ == id.take(i as int).filter(f),
        decreases ext.len() - i,
    {
        proof {
            assert(id.take(i + 1) =~= id.take(i as int).push(i as usize));
            id.take(i as int).lemma_filter_push(i as usize, f);
        }
        if ext[i] == *d {
            out.push(i);
        }
        i += 1;
    }
    assert(id.take(ext.len() as int) =~= id);
    out
}

proof fn lemma_remove_duplicates_unique<A>(s: Seq<A>, seen: Seq<A>)
    requires
        seen.no_duplicates(),
    ensures
        s.remove_duplicates(seen).no_duplicates(),
    decreases s.len(),
{
    if s.len() > 0 {
        if seen.contains(s[0]) {
            lemma_remove_duplicates_unique(s.skip(1), seen);
        } else {
            let seen2 = seen + seq![s[0]];
            assert(seen2.no_duplicates()) by {
                assert forall|i: int, j: int| 0 <= i < seen2.len() && 0 <= j < seen2.len() && i != j implies seen2[i] != seen2[j] by {
                    if i < seen.len() && j < seen.len() {
                        assert(seen2[i] == seen[i] && seen2[j] == seen[j]);
                    } else if i < seen.len() {
                        assert(seen2[i] == seen[i]);
                    } else if j < seen.len() {
                        assert(seen2[j] == seen[j]);
                    }
                }
            }
            lemma_remove_duplicates_unique(s.skip(1), seen2);
        }
    }
}

proof fn lemma_filter_split(s: Seq<usize>, f: spec_fn(usize) -> bool, g: spec_fn(usize) -> bool, h: spec_fn(usize) -> bool)
    requires
        forall|x: usize| #[trigger] f(x) == (g(x) || h(x)),
        forall|x: usize| !(#[trigger] g(x) && h(x)),
    ensures
        s.filter(f).to_multiset() == s.filter(g).to_multiset().add(s.filter(h).to_multiset()),
    decreases s.len(),
{
    broadcast use {vstd::seq_lib::group_to_multiset_ensures, vstd::multiset::group_multiset_axioms};

    if s.len() == 0 {
        s.filter(f).lemma_filter_len(f);
        s.lemma_filter_len(f);
        s.lemma_filter_len(g);
        s.lemma_filter_len(h);
        assert(s.filter(f) =~= Seq::<usize>::empty());
        assert(s.filter(g) =~= Seq::<usize>::empty());
        assert(s.filter(h) =~= Seq::<usize>::empty());
        assert(s.filter(f).to_multiset() =~= Multiset::<usize>::empty());
    } else {
        let d = s.drop_last();
        let x = s.last();
        lemma_filter_split(d, f, g, h);
        assert(s =~= d.push(x));
        d.lemma_filter_push(x, f);
        d.lemma_filter_push(x, g);
        d.lemma_filter_push(x, h);
        assert(f(x) == (g(x) || h(x)));
        assert(!(g(x) && h(x)));
        assert(s.filter(f).to_multiset() =~= s.filter(g).to_multiset().add(s.filter(h).to_multiset()));
    }
}

proof fn lemma_holding_partition(ext: Seq<Seq<char>>, base: Seq<usize>, desired: Seq<Seq<char>>)
    requires
        desired.no_duplicates(),
    ensures
        tail_holding_lists(ext, base, desired).flatten().to_multiset().add(
            base.filter(outside(ext, desired)).to_multiset(),
        ) == base.to_multiset(),
    decreases desired.len(),
{
    broadcast use vstd::multiset::group_multiset_axioms;

    if desired.len() == 0 {
        assert(tail_holding_lists(ext, base, desired) =~= Seq::<Seq<usize>>::empty());
        assert forall|x: usize| #[trigger] outside(ext, desired)(x) by {}
        lemma_filter_all(base, outside(ext, desired));
        assert(Seq::<Seq<usize>>::empty().flatten() =~= Seq::<usize>::empty());
        assert(Seq::<usize>::empty().to_multiset() =~= Multiset::<usize>::empty()) by {
            broadcast use vstd::seq_lib::group_to_multiset_ensures;
        }
    } else {
        let d0 = desired.drop_last();
        let d = desired.last();
        assert(d0.no_duplicates()) by {
            assert forall|i: int, j: int| 0 <= i < d0.len() && 0 <= j < d0.len() && i != j implies d0[i] != d0[j] by {
                assert(d0[i] == desired[i] && d0[j] == desired[j]);
            }
        }
        assert(!d0.contains(d)) by {
            if d0.contains(d) {
                let i = choose|i: int| 0 <= i < d0.len() && d0[i] == d;
                assert(desired[i] == desired[desired.len() - 1]);
            }
        }
        lemma_holding_partition(ext, base, d0);
        let one = seq![base.filter(holds(ext, d))];
        assert(tail_holding_lists(ext, base, desired) =~= tail_holding_lists(ext, base, d0) + one);
        lemma_flatten_concat(tail_holding_lists(ext, base, d0), one);
        one.lemma_flatten_one_element();
        lemma_multiset_commutative(tail_holding_lists(ext, base, d0).flatten(), base.filter(holds(ext, d)));
        assert(desired =~= d0.push(d));
        assert forall|x: usize| #[trigger] outside(ext, d0)(x) == (holds(ext, d)(x) || outside(ext, desired)(x)) by {
            let e = ext[x as int];
            if desired.contains(e) {
                let i = choose|i: int| 0 <= i < desired.len() && desired[i] == e;
                if i < d0.len() {
                    assert(d0[i] == e);
                }
            }
            if d0.contains(e) {
                let i = choose|i: int| 0 <= i < d0.len() && d0[i] == e;
                assert(desired[i] == e);
            }
            if e == d {
                assert(desired[desired.len() - 1] == e);
            }
        }
        assert forall|x: usize| !(#[trigger] holds(ext, d)(x) && outside(ext, desired)(x)) by {
            if ext[x as int] == d {
                assert(desired[desired.len() - 1] == d);
            }
        }
        lemma_filter_split(base, outside(ext, d0), holds(ext, d), outside(ext, desired));
    }
}

proof fn lemma_filter_all(s: Seq<usize>, f: spec_fn(usize) -> bool)
    requires
        forall|x: usize| #[trigger] f(x),
    ensures
        s.filter(f) == s,
    decreases s.len(),
{
    if s.len() == 0 {
        s.lemma_filter_len(f);
        assert(s.filter(f) =~= s);
    } else {
        let d = s.drop_last();
        lemma_filter_all(d, f);
        assert(s =~= d.push(s.last()));
        d.lemma_filter_push(s.last(), f);
    }
}

/// The promoted order keeps every candidate, and every added phrase, once:
/// it is a permutation of the positions of the extended list.
pub proof fn lemma_priority_order_is_permutation(phrases: Seq<Seq<char>>, groups: Seq<Seq<Seq<char>>>)
    ensures
        priority_order(phrases + added_phrases(phrases, groups), desired_phrases(groups)).to_multiset()
            == identity((phrases + added_phrases(phrases, groups)).len()).to_multiset(),
{
    let ext = phrases + added_phrases(phrases, groups);
    let desired = desired_phrases(groups);
    lemma_remove_duplicates_unique(groups.flatten(), Seq::empty());
    assert(holding_lists(ext, desired) =~= tail_holding_lists(ext, identity(ext.len()), desired));
    lemma_holding_partition(ext, identity(ext.len()), desired);
    lemma_multiset_commutative(holding_lists(ext, desired).flatten(), identity(ext.len()).filter(outside(ext, desired)));
}

/// Promotes the preserved phrases of `groups` to the front of the ranked
/// list `phrases`: each preserved phrase in the order of its first
/// appearance, with every candidate that holds it, then every other
/// candidate in its order. A preserved phrase that the list lacks is added
/// as a new candidate; the result is the added phrases and the new order as
/// positions into `phrases` followed by them.
pub fn promote_candidate_priority_groups(phrases: &Vec<String>, groups: &Vec<Vec<String>>) -> (r: (
    Vec<String>,
    Vec<usize>,
))
    ensures
        strs_view(r.0@) == added_phrases(strs_view(phrases@), groups_view(groups@)),
        r.1@ == priority_order(strs_view(phrases@) + strs_view(r.0@), desired_phrases(groups_view(groups@))),
{
    let ghost ph = strs_view(phrases@);
    let mut desired = flatten_groups(groups);
    dedup_preserved_phrase_order(&mut desired);
    let ghost dv = strs_view(desired@);
    assert(dv == desired_phrases(groups_view(groups@)));
    let ghost absent = absent_from(ph);
    let mut added: Vec<String> = Vec::new();
    let mut k: usize = 0;
    while k < desired.len()
        invariant
            k <= desired.len(),
            ph == strs_view(phrases@),
            dv == strs_view(desired@),
            absent == absent_from(ph),
            strs_view(added@) == dv.take(k as int).filter(absent),
        decreases desired.len() - k,
    {
        proof {
            assert(dv.take(k + 1) =~= dv.take(k as int).push(dv[k as int]));
            dv.take(k as int).lemma_filter_push(dv[k as int], absent);
            assert(strings_view(phrases@) =~= ph);
        }
        if !contains_string(phrases, &desired[k]) {
            let ghost before = strs_view(added@);
            added.push(desired[k].clone());
            assert(strs_view(added@) =~= before.push(dv[k as int]));
        }
        k += 1;
    }
    assert(dv.take(desired.len() as int) =~= dv);
    let mut ext: Vec<String> = Vec::new();
    append_strings(&mut ext, phrases);
    append_strings(&mut ext, &added);
    let ghost ev = strs_view(ext@);
    assert(ev =~= ph + strs_view(added@));
    let mut order: Vec<usize> = Vec::new();
    let mut k: usize = 0;
    while k < desired.len()
        invariant
            k <= desired.len(),
            dv == strs_view(desired@),
            ev == strs_view(ext@),
            order@ == holding_lists(ev, dv.take(k as int)).flatten(),
        decreases desired.len() - k,
    {
        let pos = positions_holding_exec(&ext, &desired[k]);
        proof {
            let one = seq![positions_holding(ev, dv[k as int])];
            assert(holding_lists(ev, dv.take(k + 1)) =~= holding_lists(ev, dv.take(k as int)) + one);
            lemma_flatten_concat(holding_lists(ev, dv.take(k as int)), one);
            one.lemma_flatten_one_element();
        }
        append_all(&mut order, &pos, 0, pos.len());
        assert(pos@.subrange(0, pos@.len() as int) =~= pos@);
        k += 1;
    }
    assert(dv.take(desired.len() as int) =~= dv);
    let ghost id = identity(ext.len() as nat);
    let ghost f = outside(ev, dv);
    let ghost head = order@;
    let mut i: usize = 0;
    while i < ext.len()
        invariant
            i <= ext.len(),
            dv == strs_view(desired@),
            ev == strs_view(ext@),
            id == identity(ext.len() as nat),
            f == outside(ev, dv),
            order@ == head + id.take(i as int).filter(f),
        decreases ext.len() - i,
    {
        proof {
            assert(id.take(i + 1) =~= id.take(i as int).push(i as usize));
            id.take(i as int).lemma_filter_push(i as usize, f);
            assert(strings_view(desired@) =~= dv);
        }
        if !contains_string(&desired, &ext[i]) {
            order.push(i);
        }
        i += 1;
    }
    assert(id.take(ext.len() as int) =~= id);
    (added, order)
}

/// Promotes one group of preserved phrases.
pub fn promote_preserved_candidates(phrases: &Vec<String>, preserved: &Vec<String>) -> (r: (Vec<String>, Vec<usize>))
    ensures
        strs_view(r.0@) == added_phrases(strs_view(phrases@), seq![strs_view(preserved@)]),
        r.1@ == priority_order(strs_view(phrases@) + strs_view(r.0@), desired_phrases(seq![strs_view(preserved@)])),
{
    let mut group: Vec<String> = Vec::new();
    append_strings(&mut group, preserved);
    let mut groups: Vec<Vec<String>> = Vec::new();
    groups.push(group);
    assert(groups_view(groups@) =~= seq![strs_view(preserved@)]);
    promote_candidate_priority_groups(phrases, &groups)
}

/// The preserved phrases one character longer than a short intent of
/// `intent` characters, each once, in order.
pub open spec fn short_intent_expansions(preserved: Seq<Seq<char>>, intent: usize) -> Seq<Seq<char>> {
    preserved.filter(has_char_count((intent + 1) as usize)).remove_duplicates(Seq::empty())
}

/// Whether the expansions of a short intent get promoted: the intent is of
/// two or three characters and some preserved phrase is one longer.
pub open spec fn expansions_apply(intent_char_count: Option<usize>, preserved: Seq<Seq<char>>) -> bool {
    match intent_char_count {
        Some(ic) => 2 <= ic <= 3 && short_intent_expansions(preserved, ic).len() > 0,
        None => false,
    }
}

/// For a short intent of two or three characters, promotes the preserved
/// phrases that are one character longer (each once, in order); otherwise
/// the list stays as it is.
pub fn promote_preserved_short_intent_expansions(
    phrases: &Vec<String>,
    intent_char_count: Option<usize>,
    preserved: &Vec<String>,
) -> (r: (Vec<String>, Vec<usize>))
    ensures
        !expansions_apply(intent_char_count, strs_view(preserved@)) ==> r.0@.len() == 0 && r.1@ == identity(
            phrases@.len(),
        ),
        intent_char_count matches Some(ic) ==> (expansions_apply(intent_char_count, strs_view(preserved@)) ==> {
            let group = short_intent_expansions(strs_view(preserved@), ic);
            &&& strs_view(r.0@) == added_phrases(strs_view(phrases@), seq![group])
            &&& r.1@ == priority_order(strs_view(phrases@) + strs_view(r.0@), desired_phrases(seq![group]))
        }),
{
    let ghost pv = strs_view(preserved@);
    let ic = match intent_char_count {
        Some(ic) => ic,
        None => {
            return (Vec::new(), identity_vec(phrases.len()));
        },
    };
    if ic < 2 || ic > 3 || preserved.len() == 0 {
        proof {
            if 2 <= ic <= 3 {
                assert(pv =~= Seq::<Seq<char>>::empty());
                assert(pv.filter(has_char_count((ic + 1) as usize)) =~= Seq::<Seq<char>>::empty());
            }
        }
        return (Vec::new(), identity_vec(phrases.len()));
    }
    let want = ic + 1;
    let ghost f = has_char_count(want);
    let mut longer: Vec<String> = Vec::new();
    let mut i: usize = 0;
    while i < preserved.len()
        invariant
            i <= preserved.len(),
            pv == strs_view(preserved@),
            f == has_char_count(want),
            strs_view(longer@) == pv.take(i as int).filter(f),
        decreases preserved.len() - i,
    {
        proof {
            assert(pv.take(i + 1) =~= pv.take(i as int).push(pv[i as int]));
            pv.take(i as int).lemma_filter_push(pv[i as int], f);
        }
        if phrase_char_count(preserved[i].as_str()) == want {
            let ghost before = strs_view(longer@);
            longer.push(preserved[i].clone());
            assert(strs_view(longer@) =~= before.push(pv[i as int]));
        }
        i += 1;
    }
    assert(pv.take(preserved.len() as int) =~= pv);
    if longer.len() == 0 {
        proof {
            pv.filter(f).lemma_remove_duplicates_properties(Seq::empty());
            assert(pv.filter(f) =~= Seq::<Seq<char>>::empty());
            assert(pv.filter(f).remove_duplicates(Seq::empty()) =~= Seq::<Seq<char>>::empty());
        }
        return (Vec::new(), identity_vec(phrases.len()));
    }
    let ghost s = strs_view(longer@);
    assert(s.len() > 0);
    dedup_preserved_phrase_order(&mut longer);
    assert(longer.len() > 0) by {
        s.lemma_remove_duplicates_properties(Seq::empty());
        assert(s.contains(s[0]));
        assert(strs_view(longer@).contains(s[0]));
    }
    promote_preserved_candidates(phrases, &longer)
}

/// The frequency that a table of `(phrase, frequency)` pairs gives each
/// phrase, in order (see `entry_frequency`).
pub open spec fn table_frequencies(phrases: Seq<Seq<char>>, table: Seq<(Seq<char>, u64)>) -> Seq<u64> {
    phrases.map_values(|p: Seq<char>| entry_frequency(table, p))
}

pub open spec fn table_view(table: Option<&Vec<(String, u64)>>) -> Option<Seq<(Seq<char>, u64)>> {
    match table {
        Some(t) => Some(lexicon_entries_view(t@)),
        None => None,
    }
}

/// The grouped phrases with as many characters as the key has letters.
pub open spec fn exact_length_candidates(groups: Seq<Seq<Seq<char>>>, key: Seq<char>) -> Seq<Seq<char>> {
    groups.flatten().filter(has_char_count(key.len() as usize))
}

/// The phrases that compete for the first place of a short abbreviation:
/// those of the key's length, each once, sorted by the table's frequencies
/// (in code-point order without a table), with the abbreviation's
/// preferred phrases moved first, each once.
pub open spec fn exact_short_abbrev_top1_group(
    groups: Seq<Seq<Seq<char>>>,
    key: Seq<char>,
    table: Option<Seq<(Seq<char>, u64)>>,
) -> Seq<Seq<char>> {
    let cand = exact_length_candidates(groups, key).remove_duplicates(Seq::empty());
    let sorted = match table {
        Some(t) => frequency_sorted(cand, table_frequencies(cand, t)),
        None => frequency_sorted(cand, zeros(cand.len())),
    };
    moved_front(sorted, preferred_short_abbrev(key)).remove_duplicates(Seq::empty())
}

/// Whether the exact phrases of a short abbreviation get promoted: a list
/// of two or more, typed letters only that form a key of two to four
/// letters, a first candidate that does not hold its place, and some
/// grouped phrase of the key's length.
pub open spec fn exact_short_abbrev_top1_applies(
    n: nat,
    first_blocks: bool,
    raw: Seq<char>,
    key: Seq<char>,
    groups: Seq<Seq<Seq<char>>>,
) -> bool {
    &&& n >= 2
    &&& pure_short_abbrev(raw, key)
    &&& !first_blocks
    &&& 2 <= key.len() <= SHORT_HOTWORD_MAX_CHARS
    &&& exact_length_candidates(groups, key).len() > 0
}

/// Puts the preserved phrases of a typed abbreviation's exact length first.
/// `first_blocks` tells whether the first candidate holds its place (it is
/// pinned, has user priority, or is a direct input, shortcut or date/time).
/// `lexicon_frequencies` is the lexicon's frequency table for the phrases,
/// `None` without a lexicon.
pub fn promote_preserved_exact_short_abbrev_top1(
    phrases: &Vec<String>,
    first_blocks: bool,
    raw: &str,
    compact_key: &str,
    groups: &Vec<Vec<String>>,
    lexicon_frequencies: Option<&Vec<(String, u64)>>,
) -> (r: (Vec<String>, Vec<usize>))
    ensures
        !exact_short_abbrev_top1_applies(phrases@.len(), first_blocks, raw@, compact_key@, groups_view(groups@))
            ==> r.0@.len() == 0 && r.1@ == identity(phrases@.len()),
        exact_short_abbrev_top1_applies(phrases@.len(), first_blocks, raw@, compact_key@, groups_view(groups@)) ==> {
            let group = exact_short_abbrev_top1_group(groups_view(groups@), compact_key@, table_view(lexicon_frequencies));
            &&& strs_view(r.0@) == added_phrases(strs_view(phrases@), seq![group])
            &&& r.1@ == priority_order(strs_view(phrases@) + strs_view(r.0@), desired_phrases(seq![group]))
        },
{
    let n = phrases.len();
    if n <= 1 || !is_pure_short_abbrev_initial_input(raw, compact_key) || first_blocks {
        return (Vec::new(), identity_vec(n));
    }
    let key = chars_of(compact_key);
    let ic = key.len();
    if ic < 2 || ic > SHORT_HOTWORD_MAX_CHARS {
        return (Vec::new(), identity_vec(n));
    }
    let flat = flatten_groups(groups);
    let ghost fv = strs_view(flat@);
    let ghost f = has_char_count(ic);
    let mut cand: Vec<String> = Vec::new();
    let mut i: usize = 0;
    while i < flat.len()
        invariant
            i <= flat.len(),
            fv == strs_view(flat@),
            f == has_char_count(ic),
            strs_view(cand@) == fv.take(i as int).filter(f),
        decreases flat.len() - i,
    {
        proof {
            assert(fv.take(i + 1) =~= fv.take(i as int).push(fv[i as int]));
            fv.take(i as int).lemma_filter_push(fv[i as int], f);
        }
        if phrase_char_count(flat[i].as_str()) == ic {
            let ghost before = strs_view(cand@);
            cand.push(flat[i].clone());
            assert(strs_view(cand@) =~= before.push(fv[i as int]));
        }
        i += 1;
    }
    assert(fv.take(flat.len() as int) =~= fv);
    if cand.len() == 0 {
        return (Vec::new(), identity_vec(n));
    }
    dedup_preserved_phrase_order(&mut cand);
    let ghost cv = strs_view(cand@);
    match lexicon_frequencies {
        Some(t) => {
            let mut freqs: Vec<u64> = Vec::new();
            let mut k: usize = 0;
            while k < cand.len()
                invariant
                    k <= cand.len(),
                    cv == strs_view(cand@),
                    freqs@ == table_frequencies(cv, lexicon_entries_view(t@)).take(k as int),
                decreases cand.len() - k,
            {
                freqs.push(entry_frequency_exec(t, &cand[k]));
                k += 1;
                assert(freqs@ =~= table_frequencies(cv, lexicon_entries_view(t@)).take(k as int));
            }
            assert(freqs@ =~= table_frequencies(cv, lexicon_entries_view(t@)));
            sort_short_abbrev_top1_phrases(&mut cand, Some(&freqs));
        },
        None => {
            sort_short_abbrev_top1_phrases(&mut cand, None);
        },
    }
    promote_preferred_short_abbrev(compact_key, &mut cand);
    dedup_preserved_phrase_order(&mut cand);
    promote_preserved_candidates(phrases, &cand)
}

/// Some candidate with user priority holds `p`.
pub open spec fn user_phrase(phrases: Seq<Seq<char>>, user_priority: Seq<bool>, p: Seq<char>) -> bool {
    exists|i: int| 0 <= i < phrases.len() && user_priority[i] && (#[trigger] phrases[i]) == p
}

/// A hotword that may go to the front: a candidate with user priority
/// holds it, and it has two to four characters (exactly `guard` where one
/// is given).
pub open spec fn hotword_fits(phrases: Seq<Seq<char>>, user_priority: Seq<bool>, guard: Option<usize>) -> spec_fn(
    Seq<char>,
) -> bool {
    |p: Seq<char>|
        user_phrase(phrases, user_priority, p) && 2 <= count_non_ws(p) <= SHORT_HOTWORD_MAX_CHARS && match guard {
            Some(g) => g == count_non_ws(p),
            None => true,
        }
}

/// The hotwords that go to the front: the fitting ones, each once, in
/// order, at most `limit` of them.
pub open spec fn front_hotwords(
    phrases: Seq<Seq<char>>,
    user_priority: Seq<bool>,
    hotwords: Seq<Seq<char>>,
    guard: Option<usize>,
    limit: usize,
) -> Seq<Seq<char>> {
    let d = hotwords.filter(hotword_fits(phrases, user_priority, guard)).remove_duplicates(Seq::empty());
    if d.len() <= limit {
        d
    } else {
        d.take(limit as int)
    }
}

pub open spec fn leading_run_from(flags: Seq<bool>, i: int) -> int
    decreases flags.len() - i,
{
    if 0 <= i < flags.len() && flags[i] {
        leading_run_from(flags, i + 1)
    } else {
        i
    }
}

/// How many flags at the start are set.
pub open spec fn leading_run(flags: Seq<bool>) -> int {
    leading_run_from(flags, 0)
}

proof fn lemma_leading_run_bounds(flags: Seq<bool>, i: int)
    requires
        0 <= i <= flags.len(),
    ensures
        i <= leading_run_from(flags, i) <= flags.len(),
    decreases flags.len() - i,
{
    if i < flags.len() && flags[i] {
        lemma_leading_run_bounds(flags, i + 1);
    }
}

pub open spec fn tail_holding_lists(ext: Seq<Seq<char>>, tail: Seq<usize>, desired: Seq<Seq<char>>) -> Seq<Seq<usize>> {
    desired.map_values(|d: Seq<char>| tail.filter(holds(ext, d)))
}

/// The order after moving the front hotwords forward: the leading anchored
/// candidates in place, then for each front hotword in turn the candidates
/// after them that hold it, then every other candidate, each in its order.
pub open spec fn hotword_front_order(
    phrases: Seq<Seq<char>>,
    user_priority: Seq<bool>,
    anchors: Seq<bool>,
    hotwords: Seq<Seq<char>>,
    guard: Option<usize>,
    limit: usize,
) -> Seq<usize> {
    let desired = front_hotwords(phrases, user_priority, hotwords, guard, limit);
    let a = leading_run(anchors);
    let tail = identity(phrases.len()).subrange(a, phrases.len() as int);
    identity(a as nat) + tail_holding_lists(phrases, tail, desired).flatten() + tail.filter(outside(phrases, desired))
}

proof fn lemma_dedup_extends<A>(a: Seq<A>, c: Seq<A>)
    ensures
        a.remove_duplicates(Seq::empty()).len() <= (a + c).remove_duplicates(Seq::empty()).len(),
        (a + c).remove_duplicates(Seq::empty()).take(a.remove_duplicates(Seq::empty()).len() as int)
            == a.remove_duplicates(Seq::empty()),
    decreases c.len(),
{
    if c.len() == 0 {
        assert(a + c =~= a);
        let d = a.remove_duplicates(Seq::empty());
        assert(d.take(d.len() as int) =~= d);
    } else {
        let b = a + c.drop_last();
        lemma_dedup_extends(a, c.drop_last());
        assert(a + c =~= b + seq![c.last()]);
        b.lemma_remove_duplicates_append(c.last(), Seq::empty());
        let da = a.remove_duplicates(Seq::empty());
        let db = b.remove_duplicates(Seq::empty());
        let dc = (a + c).remove_duplicates(Seq::empty());
        assert(dc.take(da.len() as int) =~= db.take(da.len() as int));
    }
}

/// With no hotword to move, everything keeps its place.
proof fn lemma_order_without_hotwords(
    phrases: Seq<Seq<char>>,
    user_priority: Seq<bool>,
    anchors: Seq<bool>,
    hotwords: Seq<Seq<char>>,
    guard: Option<usize>,
    limit: usize,
)
    requires
        anchors.len() == phrases.len(),
        phrases.len() == 0 || limit == 0 || hotwords.filter(hotword_fits(phrases, user_priority, guard)).len() == 0,
    ensures
        hotword_front_order(phrases, user_priority, anchors, hotwords, guard, limit) == identity(phrases.len()),
{
    let fl = hotwords.filter(hotword_fits(phrases, user_priority, guard));
    let desired = front_hotwords(phrases, user_priority, hotwords, guard, limit);
    let a = leading_run(anchors);
    lemma_leading_run_bounds(anchors, 0);
    let n = phrases.len() as int;
    let tail = identity(phrases.len()).subrange(a, n);
    if fl.len() == 0 {
        assert(fl =~= Seq::<Seq<char>>::empty());
        assert(fl.remove_duplicates(Seq::empty()) =~= Seq::<Seq<char>>::empty());
    }
    if n > 0 && limit > 0 {
        assert(desired =~= Seq::<Seq<char>>::empty());
    } else if limit == 0 {
        assert(desired.len() == 0);
    }
    assert(tail_holding_lists(phrases, tail, desired).flatten() =~= Seq::<usize>::empty()) by {
        if desired.len() == 0 {
            assert(tail_holding_lists(phrases, tail, desired) =~= Seq::<Seq<usize>>::empty());
        } else {
            assert(n == 0);
            assert(tail =~= Seq::<usize>::empty());
            assert forall|k: int| 0 <= k < desired.len() implies tail_holding_lists(phrases, tail, desired)[k] =~= Seq::<usize>::empty() by {
                tail.lemma_filter_len(holds(phrases, desired[k]));
            }
            lemma_flatten_empties(tail_holding_lists(phrases, tail, desired));
        }
    }
    if desired.len() == 0 {
        assert forall|x: usize| #[trigger] outside(phrases, desired)(x) by {}
        lemma_filter_all(tail, outside(phrases, desired));
    } else {
        tail.lemma_filter_len(outside(phrases, desired));
        assert(tail.filter(outside(phrases, desired)) =~= tail);
    }
    assert(identity(a as nat) + tail =~= identity(phrases.len()));
}

proof fn lemma_flatten_empties(s: Seq<Seq<usize>>)
    requires
        forall|k: int| 0 <= k < s.len() ==> #[trigger] s[k] == Seq::<usize>::empty(),
    ensures
        s.flatten() == Seq::<usize>::empty(),
    decreases s.len(),
{
    if s.len() > 0 {
        lemma_flatten_empties(s.drop_first());
        assert(s.first() =~= Seq::<usize>::empty());
        assert(s.flatten() =~= s.first() + s.drop_first().flatten());
    }
}

fn user_phrase_exec(phrases: &Vec<String>, user_priority: &Vec<bool>, p: &String) -> (r: bool)
    requires
        user_priority.len() == phrases.len(),
    ensures
        r == user_phrase(strs_view(phrases@), user_priority@, p@),
{
    let ghost ph = strs_view(phrases@);
    let mut i: usize = 0;
    while i < phrases.len()
        invariant
            i <= phrases.len(),
            user_priority.len() == phrases.len(),
            ph == strs_view(phrases@),
            forall|k: int| 0 <= k < i && user_priority@[k] ==> (#[trigger] ph[k]) != p@,
        decreases phrases.len() - i,
    {
        if user_priority[i] && phrases[i] == *p {
            assert(ph[i as int] == p@);
            return true;
        }
        i += 1;
    }
    false
}

fn tail_positions_holding(ext: &Vec<String>, d: &String, from: usize) -> (r: Vec<usize>)
    requires
        from <= ext.len(),
    ensures
        r@ == identity(ext@.len()).subrange(from as int, ext@.len() as int).filter(holds(strs_view(ext@), d@)),
{
    let ghost ev = strs_view(ext@);
    let ghost f = holds(ev, d@);
    let ghost tail = identity(ext@.len()).subrange(from as int, ext@.len() as int);
    let mut out: Vec<usize> = Vec::new();
    let mut i: usize = from;
    while i < ext.len()
        invariant
            from <= i <= ext.len(),
            ev == strs_view(ext@),
            f == holds(ev, d@),
            tail == identity(ext@.len()).subrange(from as int, ext@.len() as int),
            out@ == tail.take(i - from).filter(f),
        decreases ext.len() - i,
    {
        proof {
            assert(tail.take(i - from + 1) =~= tail.take(i - from).push(i as usize));
            tail.take(i - from).lemma_filter_push(i as usize, f);
        }
        if ext[i] == *d {
            out.push(i);
        }
        i += 1;
    }
    assert(tail.take(ext.len() - from) =~= tail);
    out
}

/// Moves the user's exact hotwords forward, right after the leading
/// anchored candidates. `user_priority` marks the candidates with user
/// priority and `front_anchor` those that hold the front (pinned, or a
/// direct input, shortcut, date/time or special mode); `hotwords` are the
/// hotword phrases in order. At most `front_limit` hotwords move, each
/// held by a candidate with user priority and of two to four characters
/// (exactly `exact_len_guard` where one is given). Gives the new order as
/// positions.
pub fn promote_exact_user_hotwords_front(
    phrases: &Vec<String>,
    user_priority: &Vec<bool>,
    front_anchor: &Vec<bool>,
    hotwords: &Vec<String>,
    exact_len_guard: Option<usize>,
    front_limit: usize,
) -> (r: Vec<usize>)
    requires
        user_priority.len() == phrases.len(),
        front_anchor.len() == phrases.len(),
    ensures
        r@ == hotword_front_order(
            strs_view(phrases@),
            user_priority@,
            front_anchor@,
            strs_view(hotwords@),
            exact_len_guard,
            front_limit,
        ),
{
    let n = phrases.len();
    let ghost ph = strs_view(phrases@);
    let ghost hv = strs_view(hotwords@);
    let ghost fits = hotword_fits(ph, user_priority@, exact_len_guard);
    if n == 0 || hotwords.len() == 0 || front_limit == 0 {
        proof {
            if hotwords.len() == 0 {
                assert(hv =~= Seq::<Seq<char>>::empty());
                hv.lemma_filter_len(fits);
                assert(hv.filter(fits) =~= Seq::<Seq<char>>::empty());
            }
            lemma_order_without_hotwords(ph, user_priority@, front_anchor@, hv, exact_len_guard, front_limit);
        }
        return identity_vec(n);
    }
    let mut a: usize = 0;
    proof {
        lemma_leading_run_bounds(front_anchor@, 0);
    }
    while a < n && front_anchor[a]
        invariant
            a <= n,
            n == front_anchor.len(),
            leading_run_from(front_anchor@, a as int) == leading_run(front_anchor@),
        decreases n - a,
    {
        a += 1;
    }
    let mut desired: Vec<String> = Vec::new();
    let mut i: usize = 0;
    let ghost mut broke = false;
    while i < hotwords.len()
        invariant_except_break
            i <= hotwords.len(),
            desired.len() < front_limit,
        invariant
            user_priority.len() == phrases.len(),
            ph == strs_view(phrases@),
            hv == strs_view(hotwords@),
            fits == hotword_fits(ph, user_priority@, exact_len_guard),
            i <= hotwords.len(),
            strs_view(desired@) == hv.take(i as int).filter(fits).remove_duplicates(Seq::empty()),
        ensures
            desired.len() <= front_limit,
            i == hotwords.len() || desired.len() == front_limit,
        decreases hotwords.len() - i,
    {
        proof {
            assert(hv.take(i + 1) =~= hv.take(i as int).push(hv[i as int]));
            hv.take(i as int).lemma_filter_push(hv[i as int], fits);
        }
        let p = &hotwords[i];
        let chars = phrase_char_count(p.as_str());
        let fit = user_phrase_exec(phrases, user_priority, p) && 2 <= chars && chars <= SHORT_HOTWORD_MAX_CHARS
            && match exact_len_guard {
            Some(g) => g == chars,
            None => true,
        };
        if fit {
            let ghost g0 = hv.take(i as int).filter(fits);
            proof {
                g0.lemma_remove_duplicates_append(p@, Seq::empty());
                assert(g0 + Seq::<Seq<char>>::empty() =~= g0);
                assert(g0.push(p@) =~= g0 + seq![p@]);
                g0.lemma_remove_duplicates_properties(Seq::empty());
            }
            assert(strs_view(desired@) == strings_view(desired@));
            if !contains_string(&desired, p) {
                let ghost before = strs_view(desired@);
                desired.push(p.clone());
                assert(strs_view(desired@) =~= before + seq![p@]);
            }
            if desired.len() >= front_limit {
                i += 1;
                break;
            }
        }
        i += 1;
    }
    let ghost full = hv.filter(fits).remove_duplicates(Seq::empty());
    proof {
        let pre = hv.take(i as int);
        let post = hv.skip(i as int);
        assert(hv =~= pre + post);
        Seq::filter_distributes_over_add(pre, post, fits);
        lemma_dedup_extends(pre.filter(fits), post.filter(fits));
        let d = strs_view(desired@);
        assert(full.take(d.len() as int) == d);
        if d.len() < front_limit {
            assert(i == hotwords.len());
            assert(pre =~= hv);
            assert(d == full);
        } else {
            assert(d.len() == front_limit);
            if full.len() == front_limit {
                assert(full.take(full.len() as int) =~= full);
            }
        }
        assert(d == front_hotwords(ph, user_priority@, hv, exact_len_guard, front_limit));
    }
    let ghost desired_v = strs_view(desired@);
    let ghost tail = identity(n as nat).subrange(a as int, n as int);
    let mut out = identity_vec(a);
    let mut k: usize = 0;
    while k < desired.len()
        invariant
            a <= n,
            n == phrases.len(),
            k <= desired.len(),
            ph == strs_view(phrases@),
            desired_v == strs_view(desired@),
            tail == identity(n as nat).subrange(a as int, n as int),
            out@ == identity(a as nat) + tail_holding_lists(ph, tail, desired_v.take(k as int)).flatten(),
        decreases desired.len() - k,
    {
        let pos = tail_positions_holding(phrases, &desired[k], a);
        proof {
            let one = seq![tail.filter(holds(ph, desired_v[k as int]))];
            assert(tail_holding_lists(ph, tail, desired_v.take(k + 1)) =~= tail_holding_lists(ph, tail, desired_v.take(k as int)) + one);
            lemma_flatten_concat(tail_holding_lists(ph, tail, desired_v.take(k as int)), one);
            one.lemma_flatten_one_element();
        }
        append_all(&mut out, &pos, 0, pos.len());
        assert(pos@.subrange(0, pos@.len() as int) =~= pos@);
        k += 1;
    }
    assert(desired_v.take(desired.len() as int) =~= desired_v);
    let ghost f = outside(ph, desired_v);
    let ghost head = out@;
    let mut j: usize = a;
    while j < n
        invariant
            a <= j <= n,
            n == phrases.len(),
            ph == strs_view(phrases@),
            desired_v == strs_view(desired@),
            tail == identity(n as nat).subrange(a as int, n as int),
            f == outside(ph, desired_v),
            out@ == head + tail.take(j - a).filter(f),
        decreases n - j,
    {
        proof {
            assert(tail.take(j - a + 1) =~= tail.take(j - a).push(j as usize));
            tail.take(j - a).lemma_filter_push(j as usize, f);
            assert(strings_view(desired@) =~= desired_v);
        }
        if !contains_string(&desired, &phrases[j]) {
            out.push(j);
        }
        j += 1;
    }
    assert(tail.take(n - a) =~= tail);
    out
}

/// Moving the hotwords forward keeps every candidate once: the order is a
/// permutation of the positions.
pub proof fn lemma_hotword_front_order_is_permutation(
    phrases: Seq<Seq<char>>,
    user_priority: Seq<bool>,
    anchors: Seq<bool>,
    hotwords: Seq<Seq<char>>,
    guard: Option<usize>,
    limit: usize,
)
    requires
        anchors.len() == phrases.len(),
    ensures
        hotword_front_order(phrases, user_priority, anchors, hotwords, guard, limit).to_multiset() == identity(
            phrases.len(),
        ).to_multiset(),
{
    let desired = front_hotwords(phrases, user_priority, hotwords, guard, limit);
    let a = leading_run(anchors);
    lemma_leading_run_bounds(anchors, 0);
    let n = phrases.len() as int;
    let tail = identity(phrases.len()).subrange(a, n);
    let full = hotwords.filter(hotword_fits(phrases, user_priority, guard)).remove_duplicates(Seq::empty());
    lemma_remove_duplicates_unique(hotwords.filter(hotword_fits(phrases, user_priority, guard)), Seq::empty());
    assert(desired.no_duplicates()) by {
        if full.len() > limit {
            assert forall|i: int, j: int| 0 <= i < desired.len() && 0 <= j < desired.len() && i != j implies desired[i] != desired[j] by {
                assert(desired[i] == full[i] && desired[j] == full[j]);
            }
        }
    }
    lemma_holding_partition(phrases, tail, desired);
    let promoted = tail_holding_lists(phrases, tail, desired).flatten();
    let rest = tail.filter(outside(phrases, desired));
    lemma_multiset_commutative(identity(a as nat), promoted);
    lemma_multiset_commutative(identity(a as nat) + promoted, rest);
    lemma_multiset_commutative(identity(a as nat), tail);
    assert(identity(a as nat) + tail =~= identity(phrases.len()));
    assert((identity(a as nat).to_multiset().add(promoted.to_multiset())).add(rest.to_multiset()) =~= identity(
        a as nat,
    ).to_multiset().add(promoted.to_multiset().add(rest.to_multiset()))) by {
        broadcast use vstd::multiset::group_multiset_axioms;
    }
}

/// The phrases of `len` characters that one lexicon lookup gives, at most
/// two of them.
pub open spec fn lookup_expansions(entries: Seq<Seq<char>>, len: usize) -> Seq<Seq<char>> {
    let f = entries.filter(has_char_count(len));
    if f.len() <= 2 {
        f
    } else {
        f.take(2)
    }
}

pub open spec fn lookups_view(t: Seq<Option<Vec<String>>>) -> Seq<Option<Seq<Seq<char>>>> {
    t.map_values(|o: Option<Vec<String>>| match o {
        Some(v) => Some(strs_view(v@)),
        None => None,
    })
}

/// The expansions that the longest prefix of at most `len` letters (and at
/// least `exp`) gives: `t[l]` is what the lexicon lists under the first `l`
/// letters of the key, `None` where it lists nothing.
pub open spec fn prefix_expansions(t: Seq<Option<Seq<Seq<char>>>>, exp: usize, len: int) -> Seq<Seq<char>>
    decreases len + 1,
{
    if len < exp || len < 0 {
        Seq::empty()
    } else {
        let found = if len < t.len() {
            match t[len] {
                Some(entries) => lookup_expansions(entries, exp),
                None => Seq::empty(),
            }
        } else {
            Seq::empty()
        };
        if found.len() > 0 {
            found
        } else {
            prefix_expansions(t, exp, len - 1)
        }
    }
}

/// The expansions of a short abbreviation that get promoted: for an intent
/// of two or three characters and a key of more letters than that (letters
/// only), the phrases one character longer than the intent that the
/// longest prefix of the key (shorter than the key) lists.
pub open spec fn abbrev_prefix_group(
    key: Seq<char>,
    intent_char_count: Option<usize>,
    lookups: Option<Seq<Option<Seq<Seq<char>>>>>,
) -> Seq<Seq<char>> {
    match (intent_char_count, lookups) {
        (Some(ic), Some(t)) => if 2 <= ic <= 3 && key.len() > ic && all_alpha(key) {
            prefix_expansions(t, (ic + 1) as usize, key.len() - 1)
        } else {
            Seq::empty()
        },
        _ => Seq::empty(),
    }
}

/// Promotes the phrases that a short abbreviation's longest prefix expands
/// to (see `abbrev_prefix_group`), each once; otherwise the list stays.
/// `prefix_lookups` holds, at index `l`, the lexicon's phrases for the
/// first `l` letters of the key (`None` where it has none); it is `None`
/// without a lexicon.
pub fn promote_short_intent_abbrev_prefix_expansions(
    phrases: &Vec<String>,
    compact_key: &str,
    intent_char_count: Option<usize>,
    prefix_lookups: Option<&Vec<Option<Vec<String>>>>,
) -> (r: (Vec<String>, Vec<usize>))
    ensures
        ({
            let group = abbrev_prefix_group(
                compact_key@,
                intent_char_count,
                match prefix_lookups {
                    Some(t) => Some(lookups_view(t@)),
                    None => None,
                },
            );
            &&& group.len() == 0 ==> r.0@.len() == 0 && r.1@ == identity(phrases@.len())
            &&& group.len() > 0 ==> {
                &&& strs_view(r.0@) == added_phrases(strs_view(phrases@), seq![group.remove_duplicates(Seq::empty())])
                &&& r.1@ == priority_order(
                    strs_view(phrases@) + strs_view(r.0@),
                    desired_phrases(seq![group.remove_duplicates(Seq::empty())]),
                )
            }
        }),
{
    let n = phrases.len();
    let ic = match intent_char_count {
        Some(ic) => ic,
        None => {
            return (Vec::new(), identity_vec(n));
        },
    };
    let t = match prefix_lookups {
        Some(t) => t,
        None => {
            return (Vec::new(), identity_vec(n));
        },
    };
    let key = chars_of(compact_key);
    if ic < 2 || ic > 3 || key.len() <= ic || !all_alpha_vec(&key) {
        return (Vec::new(), identity_vec(n));
    }
    let exp = ic + 1;
    let ghost tv = lookups_view(t@);
    let mut len = key.len() - 1;
    let mut found: Vec<String> = Vec::new();
    while len >= exp
        invariant_except_break
            found@.len() == 0,
            prefix_expansions(tv, exp, len as int) == prefix_expansions(tv, exp, key.len() - 1),
        invariant
            exp >= 3,
            len < key.len(),
            tv == lookups_view(t@),
        ensures
            found@.len() == 0 ==> prefix_expansions(tv, exp, key.len() - 1).len() == 0,
            found@.len() > 0 ==> strs_view(found@) == prefix_expansions(tv, exp, key.len() - 1),
        decreases len,
    {
        if len < t.len() {
            match &t[len] {
                Some(entries) => {
                    let ghost ev = strs_view(entries@);
                    let ghost f = has_char_count(exp);
                    assert(tv[len as int] == Some(ev));
                    let mut picked: Vec<String> = Vec::new();
                    let mut i: usize = 0;
                    while i < entries.len() && picked.len() < 2
                        invariant
                            i <= entries.len(),
                            ev == strs_view(entries@),
                            f == has_char_count(exp),
                            picked.len() <= 2,
                            strs_view(picked@) == ev.take(i as int).filter(f),
                        decreases entries.len() - i,
                    {
                        proof {
                            assert(ev.take(i + 1) =~= ev.take(i as int).push(ev[i as int]));
                            ev.take(i as int).lemma_filter_push(ev[i as int], f);
                        }
                        if phrase_char_count(entries[i].as_str()) == exp {
                            let ghost before = strs_view(picked@);
                            picked.push(entries[i].clone());
                            assert(strs_view(picked@) =~= before.push(ev[i as int]));
                        }
                        i += 1;
                    }
                    proof {
                        let pre = ev.take(i as int);
                        let post = ev.skip(i as int);
                        assert(ev =~= pre + post);
                        Seq::filter_distributes_over_add(pre, post, f);
                        if picked@.len() < 2 {
                            assert(i == entries.len());
                            assert(post =~= Seq::<Seq<char>>::empty());
                            post.lemma_filter_len(f);
                            assert(post.filter(f) =~= Seq::<Seq<char>>::empty());
                            assert(ev.filter(f) =~= pre.filter(f));
                        } else {
                            assert(ev.filter(f).take(2) =~= pre.filter(f));
                        }
                        assert(strs_view(picked@) == lookup_expansions(ev, exp));
                    }
                    if picked.len() > 0 {
                        found = picked;
                        break;
                    }
                },
                None => {},
            }
        }
        len -= 1;
    }
    if found.len() == 0 {
        return (Vec::new(), identity_vec(n));
    }
    dedup_preserved_phrase_order(&mut found);
    promote_preserved_candidates(phrases, &found)
}

} // verus!
