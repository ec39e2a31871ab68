//! The priority tables of the final candidate list: which preserved phrase
//! groups lead, in which order, under the exact-length guards of the input,
//! and the promoted order of the ranked candidates under them.
use vstd::prelude::*;
use crate::correction_prefs::{CorrectionLevel, CorrectionPrefs};
use crate::learning::phrase_char_count;
use crate::lookup_cache::clone_strings;
use crate::pagination::{
    arrange_two_char_intent_page_density, identity, lemma_two_char_density_is_permutation, two_char_density,
};
use crate::partial_page::{falses, lemma_permutation_below, lens_of, lens_vec, pick, pick_bools, pick_strings, with_falses};
use crate::postprocess::{
    corrections_demoted, demote_corrections_after_confident_long_exact, lemma_corrections_demoted_is_permutation,
    all_below, corrections_limited, drop_single_char_corrections_for_two_char_intent, flagged,
    lemma_flagged_shape, limit_typo_corrections_first_page, single_corrections_dropped,
};
use crate::priority_groups::{
    exact_short_abbrev_top1_applies, exact_short_abbrev_top1_group, promote_preserved_exact_short_abbrev_top1,
    table_view, added_phrases, desired_phrases, groups_view, hotword_front_order, lemma_hotword_front_order_is_permutation,
    lemma_priority_order_is_permutation, priority_order, promote_candidate_priority_groups,
    promote_exact_user_hotwords_front,
};
use crate::text::{count_non_ws, prefix_of};
use crate::user_lexicon::strs_view;

verus! {

/// The preserved phrase groups of one lookup, each best first.
pub struct PostprocessLists {
    /// Direct-input phrases (a date, a time).
    pub direct: Vec<String>,
    /// Phrases the final stage prefers.
    pub preferred: Vec<String>,
    /// The user's phrases for exactly this input.
    pub exact_user: Vec<String>,
    /// The user's pinned phrases.
    pub pinned_user: Vec<String>,
    /// Phrases with the separators the user typed.
    pub separator: Vec<String>,
    /// The lexicon's phrases that read exactly as the full pinyin.
    pub exact_full_pinyin: Vec<String>,
    /// The lexicon's phrases for exactly this key.
    pub exact_lexicon: Vec<String>,
    /// The user's phrases for this mixed input.
    pub mixed_user: Vec<String>,
    pub high_priority_two_char: Vec<String>,
    pub chat_priority_two_char: Vec<String>,
    pub daily_short_two_char: Vec<String>,
    pub daily_short_three_char: Vec<String>,
}

/// The exact-length guards of an input and the stage it is in.
#[derive(Clone, Copy, Debug)]
pub struct PostprocessGuards {
    /// The input is one complete syllable.
    pub exact_single_syllable: bool,
    /// The multi-syllable phrase layout was applied.
    pub multi_syllable_layout: bool,
    /// Syllables of a complete full-pinyin input that guards exact phrases.
    pub exact_guard_syllables: Option<usize>,
    /// Syllables of an input whose pinned phrase runs longer than it.
    pub overlong_pinned_exact_guard_syllables: Option<usize>,
}

pub open spec fn within_len(max: usize) -> spec_fn(Seq<char>) -> bool {
    |p: Seq<char>| count_non_ws(p) <= max
}

pub open spec fn one_char() -> spec_fn(Seq<char>) -> bool {
    |p: Seq<char>| count_non_ws(p) == 1
}

/// `g` cut to the phrases no longer than `guard`, when there is a guard.
pub open spec fn guarded(g: Seq<Seq<char>>, guard: Option<usize>) -> Seq<Seq<char>> {
    match guard {
        Some(m) => g.filter(within_len(m)),
        None => g,
    }
}

/// The exact-length guard: that of a complete input, else that of an
/// overlong pinned phrase.
pub open spec fn length_guard(g: PostprocessGuards) -> Option<usize> {
    if g.exact_guard_syllables is Some {
        g.exact_guard_syllables
    } else {
        g.overlong_pinned_exact_guard_syllables
    }
}

/// The priority groups, in order. One complete syllable: the user's pinned
/// single characters. After the multi-syllable layout: direct, preferred,
/// the user's exact phrases (within the length guard), separator phrases,
/// the first exact full-pinyin phrase (under a length guard), pinned
/// phrases (within the exact guard), then the two- and three-character
/// priority phrases. Otherwise the final table: with an overlong pinned
/// phrase the layout's order with the user's mixed phrases after the
/// preferred ones, all exact full-pinyin phrases and the exact lexicon
/// phrases before the pinned ones; with an exact guard the pinned phrases
/// first; without a guard the pinned phrases first, no full-pinyin group,
/// and the user's exact phrases last.
pub open spec fn postprocess_priority_groups(l: PostprocessLists, g: PostprocessGuards) -> Seq<Seq<Seq<char>>> {
    let guard = length_guard(g);
    let direct = strs_view(l.direct@);
    let preferred = strs_view(l.preferred@);
    let exact_user = guarded(strs_view(l.exact_user@), guard);
    let pinned = guarded(strs_view(l.pinned_user@), g.exact_guard_syllables);
    let separator = strs_view(l.separator@);
    let full = match guard {
        Some(_) => strs_view(l.exact_full_pinyin@),
        None => Seq::empty(),
    };
    let lexicon = strs_view(l.exact_lexicon@);
    let mixed = strs_view(l.mixed_user@);
    let high = strs_view(l.high_priority_two_char@);
    let chat = strs_view(l.chat_priority_two_char@);
    let daily2 = strs_view(l.daily_short_two_char@);
    let daily3 = strs_view(l.daily_short_three_char@);
    if g.exact_single_syllable {
        seq![strs_view(l.pinned_user@).filter(one_char())]
    } else if g.multi_syllable_layout {
        seq![direct, preferred, exact_user, separator, prefix_of(full, 1), pinned, high, chat, daily2, daily3]
    } else if g.overlong_pinned_exact_guard_syllables is Some {
        seq![direct, preferred, mixed, exact_user, separator, full, lexicon, pinned, high, chat, daily2, daily3]
    } else if g.exact_guard_syllables is Some {
        seq![pinned, direct, preferred, mixed, exact_user, separator, full, lexicon, high, chat, daily2, daily3]
    } else {
        seq![pinned, direct, preferred, mixed, separator, lexicon, high, chat, daily2, daily3, exact_user]
    }
}

fn filter_strings(v: &Vec<String>, max: usize, exact_one: bool) -> (r: Vec<String>)
    ensures
        strs_view(r@) == strs_view(v@).filter(if exact_one { one_char() } else { within_len(max) }),
{
    let ghost f = if exact_one { one_char() } else { within_len(max) };
    let ghost sv = strs_view(v@);
    let mut out: Vec<String> = Vec::new();
    let mut i: usize = 0;
    while i < v.len()
        invariant
            i <= v.len(),
            sv == strs_view(v@),
            f == (if exact_one { one_char() } else { within_len(max) }),
            strs_view(out@) == sv.take(i as int).filter(f),
        decreases v.len() - i,
    {
        proof {
            assert(sv.take(i + 1) =~= sv.take(i as int).push(sv[i as int]));
            sv.take(i as int).lemma_filter_push(sv[i as int], f);
        }
        let c = phrase_char_count(v[i].as_str());
        let keep = if exact_one { c == 1 } else { c <= max };
        assert(keep == f(sv[i as int]));
        if keep {
            let ghost before = strs_view(out@);
            out.push(v[i].clone());
            assert(strs_view(out@) =~= before.push(sv[i as int]));
        }
        i += 1;
    }
    assert(sv.take(v.len() as int) =~= sv);
    out
}

fn guarded_vec(v: &Vec<String>, guard: Option<usize>) -> (r: Vec<String>)
    ensures
        strs_view(r@) == guarded(strs_view(v@), guard),
{
    match guard {
        Some(m) => filter_strings(v, m, false),
        None => clone_strings(v),
    }
}

/// The priority groups of a lookup (see `postprocess_priority_groups`).
pub fn candidate_postprocess_priority_groups(l: &PostprocessLists, g: PostprocessGuards) -> (r: Vec<Vec<String>>)
    ensures
        groups_view(r@) == postprocess_priority_groups(*l, g),
{
    let mut out: Vec<Vec<String>> = Vec::new();
    if g.exact_single_syllable {
        out.push(filter_strings(&l.pinned_user, 1, true));
        assert(groups_view(out@) =~= postprocess_priority_groups(*l, g));
        return out;
    }
    let guard = if g.exact_guard_syllables.is_some() {
        g.exact_guard_syllables
    } else {
        g.overlong_pinned_exact_guard_syllables
    };
    let exact_user = guarded_vec(&l.exact_user, guard);
    let pinned = guarded_vec(&l.pinned_user, g.exact_guard_syllables);
    let full = match guard {
        Some(_) => clone_strings(&l.exact_full_pinyin),
        None => Vec::new(),
    };
    assert(strs_view(full@) =~= match guard {
        Some(_) => strs_view(l.exact_full_pinyin@),
        None => Seq::<Seq<char>>::empty(),
    });
    if g.multi_syllable_layout {
        let mut first_full: Vec<String> = Vec::new();
        if full.len() > 0 {
            first_full.push(full[0].clone());
        }
        assert(strs_view(first_full@) =~= prefix_of(strs_view(full@), 1));
        out.push(clone_strings(&l.direct));
        out.push(clone_strings(&l.preferred));
        out.push(exact_user);
        out.push(clone_strings(&l.separator));
        out.push(first_full);
        out.push(pinned);
    } else if g.overlong_pinned_exact_guard_syllables.is_some() {
        out.push(clone_strings(&l.direct));
        out.push(clone_strings(&l.preferred));
        out.push(clone_strings(&l.mixed_user));
        out.push(exact_user);
        out.push(clone_strings(&l.separator));
        out.push(full);
        out.push(clone_strings(&l.exact_lexicon));
        out.push(pinned);
    } else if g.exact_guard_syllables.is_some() {
        out.push(pinned);
        out.push(clone_strings(&l.direct));
        out.push(clone_strings(&l.preferred));
        out.push(clone_strings(&l.mixed_user));
        out.push(exact_user);
        out.push(clone_strings(&l.separator));
        out.push(full);
        out.push(clone_strings(&l.exact_lexicon));
    } else {
        out.push(pinned);
        out.push(clone_strings(&l.direct));
        out.push(clone_strings(&l.preferred));
        out.push(clone_strings(&l.mixed_user));
        out.push(clone_strings(&l.separator));
        out.push(clone_strings(&l.exact_lexicon));
        push_two_three_char_groups(&mut out, l);
        let ghost mid = groups_view(out@);
        let ghost eu = strs_view(exact_user@);
        assert(guard is None);
        assert(eu == strs_view(l.exact_user@));
        out.push(exact_user);
        assert(groups_view(out@) =~= mid.push(eu));
        assert(groups_view(out@) =~= postprocess_priority_groups(*l, g));
        return out;
    }
    push_two_three_char_groups(&mut out, l);
    assert(groups_view(out@) =~= postprocess_priority_groups(*l, g));
    out
}

fn push_two_three_char_groups(out: &mut Vec<Vec<String>>, l: &PostprocessLists)
    ensures
        groups_view(final(out)@) == groups_view(old(out)@) + seq![
            strs_view(l.high_priority_two_char@),
            strs_view(l.chat_priority_two_char@),
            strs_view(l.daily_short_two_char@),
            strs_view(l.daily_short_three_char@),
        ],
{
    let ghost start = groups_view(out@);
    out.push(clone_strings(&l.high_priority_two_char));
    out.push(clone_strings(&l.chat_priority_two_char));
    out.push(clone_strings(&l.daily_short_two_char));
    out.push(clone_strings(&l.daily_short_three_char));
    assert(groups_view(out@) =~= start + seq![
        strs_view(l.high_priority_two_char@),
        strs_view(l.chat_priority_two_char@),
        strs_view(l.daily_short_two_char@),
        strs_view(l.daily_short_three_char@),
    ]);
}

/// The positions of the one-character candidates, in order.
pub open spec fn one_char_positions(ph: Seq<Seq<char>>) -> Seq<usize> {
    identity(ph.len()).filter(|i: usize| count_non_ws(ph[i as int]) == 1)
}

/// The candidates the final stage works on: on one complete syllable only
/// the one-character candidates, otherwise all of them.
pub open spec fn stage_positions(ph: Seq<Seq<char>>, g: PostprocessGuards) -> Seq<usize> {
    if g.exact_single_syllable {
        one_char_positions(ph)
    } else {
        identity(ph.len())
    }
}

/// An order over the kept candidates `pos` (then added phrases) as
/// positions into the whole ranked list of `n` candidates (then the added
/// phrases).
pub open spec fn back_to_ranked(o: Seq<usize>, pos: Seq<usize>, n: int) -> Seq<usize> {
    o.map_values(|x: usize| if (x as int) < pos.len() { pos[x as int] } else { (n + x - pos.len()) as usize })
}

/// The final order of the ranked candidates `ph` under the lookup's
/// priority groups: on one complete syllable the candidates of more than one
/// character leave first; the preserved phrases that the kept list lacks are
/// added; then the priority groups are promoted (see
/// `promote_candidate_priority_groups`).
pub open spec fn postprocess_added(ph: Seq<Seq<char>>, l: PostprocessLists, g: PostprocessGuards) -> Seq<Seq<char>> {
    added_phrases(pick(ph, stage_positions(ph, g)), postprocess_priority_groups(l, g))
}

pub open spec fn postprocess_order(ph: Seq<Seq<char>>, l: PostprocessLists, g: PostprocessGuards) -> Seq<usize> {
    let base = pick(ph, stage_positions(ph, g));
    let groups = postprocess_priority_groups(l, g);
    back_to_ranked(
        priority_order(base + added_phrases(base, groups), desired_phrases(groups)),
        stage_positions(ph, g),
        ph.len() as int,
    )
}

fn one_char_positions_vec(phrases: &Vec<String>) -> (r: Vec<usize>)
    ensures
        r@ == one_char_positions(strs_view(phrases@)),
{
    let ghost ph = strs_view(phrases@);
    let ghost f = |i: usize| count_non_ws(ph[i as int]) == 1;
    let ghost id = identity(phrases.len() as nat);
    let mut out: Vec<usize> = Vec::new();
    let mut i: usize = 0;
    while i < phrases.len()
        invariant
            i <= phrases.len(),
            ph == strs_view(phrases@),
            id == identity(phrases.len() as nat),
            f == (|i: usize| count_non_ws(ph[i as int]) == 1),
            out@ == id.take(i as int).filter(f),
        decreases phrases.len() - i,
    {
        proof {
            assert(id.take(i + 1) =~= id.take(i as int).push(i as usize));
            id.take(i as int).lemma_filter_push(i as usize, f);
        }
        if phrase_char_count(phrases[i].as_str()) == 1 {
            out.push(i);
        }
        i += 1;
    }
    assert(id.take(phrases.len() as int) =~= id);
    out
}

proof fn lemma_single_stage_one_char(ph: Seq<Seq<char>>, l: PostprocessLists, g: PostprocessGuards)
    requires
        g.exact_single_syllable,
        ph.len() <= usize::MAX,
    ensures
        ({
            let pos = stage_positions(ph, g);
            let added = postprocess_added(ph, l, g);
            &&& forall|k: int| 0 <= k < pos.len() ==> #[trigger] pos[k] < ph.len() && count_non_ws(ph[pos[k] as int]) == 1
            &&& forall|k: int| 0 <= k < added.len() ==> count_non_ws(#[trigger] added[k]) == 1
        }),
{
    broadcast use Seq::lemma_flatten_singleton;

    let pos = stage_positions(ph, g);
    let f = |i: usize| count_non_ws(ph[i as int]) == 1;
    let id = identity(ph.len());
    assert forall|k: int| 0 <= k < pos.len() implies #[trigger] pos[k] < ph.len() && count_non_ws(ph[pos[k] as int]) == 1 by {
        id.lemma_filter_pred(f, k);
        assert(id.filter(f).contains(pos[k]));
        id.lemma_filter_contains_rev(f, pos[k]);
        let j = choose|j: int| 0 <= j < id.len() && id[j] == pos[k];
        assert(id[j] == j as usize);
    }
    let groups = postprocess_priority_groups(l, g);
    let big = strs_view(l.pinned_user@);
    let one = big.filter(one_char());
    assert(groups == seq![one]);
    assert(groups.flatten() == one);
    let desired = desired_phrases(groups);
    let base = pick(ph, pos);
    let added = postprocess_added(ph, l, g);
    assert forall|k: int| 0 <= k < added.len() implies count_non_ws(#[trigger] added[k]) == 1 by {
        let x = added[k];
        assert(added == desired.filter(crate::priority_groups::absent_from(base)));
        assert(added.contains(x));
        desired.lemma_filter_contains_rev(crate::priority_groups::absent_from(base), x);
        one.lemma_remove_duplicates_properties(Seq::empty());
        assert(one + Seq::<Seq<char>>::empty() =~= one);
        assert(one.contains(x));
        let j = choose|j: int| 0 <= j < one.len() && one[j] == x;
        big.lemma_filter_pred(one_char(), j);
    }
}

/// The ranked candidates `phrases` with the priority groups of the lookup
/// promoted to the front (see `postprocess_order`): the preserved phrases
/// the kept list lacks, and the new order as positions into `phrases`
/// followed by them. On one complete syllable every candidate of the new
/// order is a single character.
pub fn candidate_postprocess_order(phrases: &Vec<String>, l: &PostprocessLists, g: PostprocessGuards) -> (r: (
    Vec<String>,
    Vec<usize>,
))
    ensures
        strs_view(r.0@) == postprocess_added(strs_view(phrases@), *l, g),
        r.1@ == postprocess_order(strs_view(phrases@), *l, g),
        forall|k: int| 0 <= k < r.1@.len() ==> #[trigger] r.1@[k] < phrases@.len() + r.0@.len(),
        g.exact_single_syllable ==> forall|k: int|
            0 <= k < r.1@.len() ==> count_non_ws(#[trigger] (strs_view(phrases@) + strs_view(r.0@))[r.1@[k] as int])
                == 1,
{
    let ghost ph = strs_view(phrases@);
    let n = phrases.len();
    let pos = if g.exact_single_syllable {
        one_char_positions_vec(phrases)
    } else {
        crate::postprocess::identity_vec(n)
    };
    assert(pos@ == stage_positions(ph, g));
    proof {
        if g.exact_single_syllable {
            lemma_single_stage_one_char(ph, *l, g);
        }
        assert forall|k: int| 0 <= k < pos@.len() implies #[trigger] pos@[k] < n by {
            if !g.exact_single_syllable {
                assert(identity(n as nat)[k] == k as usize);
            }
        }
    }
    assert(all_below(pos@, n as int));
    let base = pick_strings(phrases, &pos);
    let groups = candidate_postprocess_priority_groups(l, g);
    let (added, o) = promote_candidate_priority_groups(&base, &groups);
    let mut ext: Vec<String> = Vec::new();
    crate::postprocess::append_strings(&mut ext, &base);
    crate::postprocess::append_strings(&mut ext, &added);
    assert(strs_view(ext@) =~= strs_view(base@) + strs_view(added@));
    assert(ext@.len() == strs_view(ext@).len());
    assert(added@.len() == strs_view(added@).len());
    let ne = ext.len();
    assert(ext@.len() == ne);
    proof {
        lemma_priority_order_is_permutation(strs_view(base@), groups_view(groups@));
        lemma_permutation_below(o@, ext@.len());
    }
    let mut all: Vec<String> = Vec::new();
    crate::postprocess::append_strings(&mut all, phrases);
    crate::postprocess::append_strings(&mut all, &added);
    assert(strs_view(all@) =~= ph + strs_view(added@));
    assert(all@.len() == strs_view(all@).len());
    let na = all.len();
    assert(all@.len() == na);
    let nb = pos.len();
    let mut out: Vec<usize> = Vec::new();
    let mut k: usize = 0;
    while k < o.len()
        invariant
            k <= o.len(),
            nb == pos@.len(),
            nb == base@.len(),
            ne == nb + added@.len(),
            na == n + added@.len(),
            all_below(o@, ne as int),
            all_below(pos@, n as int),
            out@ == back_to_ranked(o@.take(k as int), pos@, n as int),
            all_below(out@, na as int),
        decreases o.len() - k,
    {
        let x = o[k];
        let y = if x < nb {
            pos[x]
        } else {
            n + (x - nb)
        };
        out.push(y);
        assert(o@.take(k + 1) =~= o@.take(k as int).push(x));
        assert(out@ =~= back_to_ranked(o@.take(k + 1), pos@, n as int));
        k += 1;
    }
    assert(o@.take(o.len() as int) =~= o@);
    proof {
        if g.exact_single_syllable {
            lemma_single_stage_one_char(ph, *l, g);
            let av = strs_view(added@);
            assert(strs_view(base@) == pick(ph, stage_positions(ph, g)));
            assert(groups_view(groups@) == postprocess_priority_groups(*l, g));
            assert(av == postprocess_added(ph, *l, g));
            assert forall|k: int| 0 <= k < out@.len() implies count_non_ws(#[trigger] (ph + av)[out@[k] as int]) == 1 by {
                let x = o@[k];
                assert(o@[k] < ne);
                if (x as int) < nb {
                    assert(out@[k] == pos@[x as int]);
                    assert(pos@[x as int] < n && count_non_ws(ph[pos@[x as int] as int]) == 1);
                    assert((ph + av)[out@[k] as int] == ph[pos@[x as int] as int]);
                } else {
                    assert(out@[k] == n + x - nb);
                    assert(0 <= x - nb < av.len());
                    assert((ph + av)[out@[k] as int] == av[x - nb]);
                    assert(count_non_ws(av[x - nb]) == 1);
                }
            }
        }
    }
    (added, out)
}

/// What the multi-syllable layout's final stage reads of a lookup besides
/// its lists.
#[derive(Clone, Copy, Debug)]
pub struct LayoutPostprocessInput {
    /// The position of the correction that sorts first, if any.
    pub best_correction: Option<usize>,
    pub prefs: CorrectionPrefs,
    pub suppress_correction: bool,
    /// The short-phrase intent of the final stage.
    pub final_short_phrase_intent: Option<usize>,
    pub skip_final_short_density: bool,
    /// The input reads as full pinyin.
    pub full_pinyin_input: bool,
    /// How many of the user's exact hotwords may move to the front.
    pub user_hotword_front_limit: usize,
    pub page_size: usize,
}

/// The input asks for two characters.
pub open spec fn two_char_asked(inp: LayoutPostprocessInput, g: PostprocessGuards) -> bool {
    inp.final_short_phrase_intent == Some(2usize) || g.exact_guard_syllables == Some(2usize)
        || g.overlong_pinned_exact_guard_syllables == Some(2usize)
}

/// The two-character page layout closes the stage: a full-pinyin input
/// that asks for two characters, with no pinned phrase and no daily
/// three-character phrase, unless the final density is skipped.
pub open spec fn layout_density_applies(l: PostprocessLists, inp: LayoutPostprocessInput, g: PostprocessGuards) -> bool {
    &&& !inp.skip_final_short_density
    &&& l.pinned_user@.len() == 0
    &&& inp.full_pinyin_input
    &&& l.daily_short_three_char@.len() == 0
    &&& (g.exact_guard_syllables == Some(2usize) || inp.final_short_phrase_intent == Some(2usize))
}

/// The final stage after the multi-syllable layout: the corrections limited
/// as the settings ask, single-character corrections dropped when two
/// characters are asked for, the priority groups promoted (added phrases
/// carry no flags), the user's exact hotwords within the length guard
/// moved to the front, and, where it applies, the two-character page
/// layout.
pub open spec fn layout_postprocess(
    ph: Seq<Seq<char>>,
    corrections: Seq<bool>,
    user_priority: Seq<bool>,
    anchors: Seq<bool>,
    l: PostprocessLists,
    g: PostprocessGuards,
    inp: LayoutPostprocessInput,
) -> Seq<Seq<char>> {
    let o1 = corrections_limited(corrections, inp.best_correction, inp.prefs.enabled, inp.prefs.level, inp.suppress_correction);
    let s1 = pick(ph, o1);
    let c1 = pick(corrections, o1);
    let u1 = pick(user_priority, o1);
    let a1 = pick(anchors, o1);
    let o2 = single_corrections_dropped(lens_of(s1), c1, if two_char_asked(inp, g) { Some(2usize) } else { None });
    let s2 = pick(s1, o2);
    let u2 = pick(u1, o2);
    let a2 = pick(a1, o2);
    let groups = postprocess_priority_groups(l, g);
    let added = added_phrases(s2, groups);
    let e3 = s2 + added;
    let o3 = priority_order(e3, desired_phrases(groups));
    let s3 = pick(e3, o3);
    let u3 = pick(u2 + falses(added.len()), o3);
    let a3 = pick(a2 + falses(added.len()), o3);
    let hot = guarded(strs_view(l.exact_user@), length_guard(g));
    let s4 = pick(s3, hotword_front_order(s3, u3, a3, hot, length_guard(g), inp.user_hotword_front_limit));
    if layout_density_applies(l, inp, g) {
        pick(s4, two_char_density(lens_of(s4), inp.page_size))
    } else {
        s4
    }
}

proof fn lemma_flagged_below(flags: Seq<bool>, want: bool)
    requires
        flags.len() <= usize::MAX,
    ensures
        all_below(flagged(flags, flags.len() as int, want), flags.len() as int),
{
    lemma_flagged_shape(flags, flags.len() as int, want);
}

proof fn lemma_corrections_limited_below(
    corrections: Seq<bool>,
    best: Option<usize>,
    enabled: bool,
    level: CorrectionLevel,
    suppress: bool,
)
    requires
        corrections.len() <= usize::MAX,
        best matches Some(b) ==> b < corrections.len(),
    ensures
        all_below(corrections_limited(corrections, best, enabled, level, suppress), corrections.len() as int),
{
    let n = corrections.len() as int;
    let out = flagged(corrections, n, false);
    lemma_flagged_below(corrections, false);
    let r = corrections_limited(corrections, best, enabled, level, suppress);
    if enabled && !suppress && best is Some {
        let b = best->0;
        let at: int = if level == CorrectionLevel::Medium {
            if out.len() < 2 { out.len() as int } else { 2 }
        } else if out.len() == 0 {
            0
        } else {
            1
        };
        if level != CorrectionLevel::Light {
            assert forall|k: int| 0 <= k < r.len() implies #[trigger] r[k] < n by {
                out.insert_ensures(at, b);
                if k < at {
                    assert(r[k] == out[k]);
                } else if k > at {
                    assert(r[k] == out[k - 1]);
                }
            }
        }
    }
}

proof fn lemma_single_corrections_dropped_below(lens: Seq<usize>, corrections: Seq<bool>, intent: Option<usize>)
    requires
        lens.len() == corrections.len(),
        lens.len() <= usize::MAX,
    ensures
        all_below(single_corrections_dropped(lens, corrections, intent), lens.len() as int),
{
    let r = single_corrections_dropped(lens, corrections, intent);
    if r != identity(lens.len()) {
        lemma_flagged_shape(crate::postprocess::not_single_correction(lens, corrections), lens.len() as int, true);
    }
}

/// The final stage after the multi-syllable layout (see
/// `layout_postprocess`): `phrases` are the laid-out candidates with their
/// correction, user-priority and front-anchor flags.
pub fn multi_syllable_layout_postprocess(
    phrases: &Vec<String>,
    corrections: &Vec<bool>,
    user_priority: &Vec<bool>,
    anchors: &Vec<bool>,
    l: &PostprocessLists,
    g: PostprocessGuards,
    inp: LayoutPostprocessInput,
) -> (r: Vec<String>)
    requires
        corrections.len() == phrases.len(),
        user_priority.len() == phrases.len(),
        anchors.len() == phrases.len(),
        inp.best_correction matches Some(b) ==> b < phrases.len(),
    ensures
        strs_view(r@) == layout_postprocess(strs_view(phrases@), corrections@, user_priority@, anchors@, *l, g, inp),
{
    let o1 = limit_typo_corrections_first_page(corrections, inp.best_correction, inp.prefs, inp.suppress_correction);
    proof {
        lemma_corrections_limited_below(
            corrections@,
            inp.best_correction,
            inp.prefs.enabled,
            inp.prefs.level,
            inp.suppress_correction,
        );
    }
    let s1 = pick_strings(phrases, &o1);
    let c1 = pick_bools(corrections, &o1);
    let u1 = pick_bools(user_priority, &o1);
    let a1 = pick_bools(anchors, &o1);
    let l1 = lens_vec(&s1);
    let two = inp.final_short_phrase_intent == Some(2usize) || g.exact_guard_syllables == Some(2usize)
        || g.overlong_pinned_exact_guard_syllables == Some(2usize);
    let intent: Option<usize> = if two { Some(2) } else { None };
    let o2 = drop_single_char_corrections_for_two_char_intent(&l1, &c1, intent);
    proof {
        lemma_single_corrections_dropped_below(l1@, c1@, intent);
    }
    let s2 = pick_strings(&s1, &o2);
    let u2 = pick_bools(&u1, &o2);
    let a2 = pick_bools(&a1, &o2);
    let groups = candidate_postprocess_priority_groups(l, g);
    let (added, o3) = promote_candidate_priority_groups(&s2, &groups);
    let mut e3: Vec<String> = Vec::new();
    crate::postprocess::append_strings(&mut e3, &s2);
    crate::postprocess::append_strings(&mut e3, &added);
    assert(strs_view(e3@) =~= strs_view(s2@) + strs_view(added@));
    assert(e3@.len() == strs_view(e3@).len());
    assert(added@.len() == strs_view(added@).len());
    let n3 = e3.len();
    assert(e3@.len() == n3);
    proof {
        lemma_priority_order_is_permutation(strs_view(s2@), groups_view(groups@));
        lemma_permutation_below(o3@, e3@.len());
    }
    let ue = with_falses(&u2, added.len());
    let ae = with_falses(&a2, added.len());
    let s3 = pick_strings(&e3, &o3);
    let u3 = pick_bools(&ue, &o3);
    let a3 = pick_bools(&ae, &o3);
    let guard = if g.exact_guard_syllables.is_some() {
        g.exact_guard_syllables
    } else {
        g.overlong_pinned_exact_guard_syllables
    };
    let hot = guarded_vec(&l.exact_user, guard);
    assert(s3@.len() == strs_view(s3@).len());
    let n3b = s3.len();
    assert(s3@.len() == n3b);
    let o4 = promote_exact_user_hotwords_front(&s3, &u3, &a3, &hot, guard, inp.user_hotword_front_limit);
    proof {
        lemma_hotword_front_order_is_permutation(strs_view(s3@), u3@, a3@, strs_view(hot@), guard, inp.user_hotword_front_limit);
        lemma_permutation_below(o4@, s3@.len());
    }
    let s4 = pick_strings(&s3, &o4);
    let n4 = s4.len();
    assert(s4@.len() == n4);
    let density = !inp.skip_final_short_density && l.pinned_user.len() == 0 && inp.full_pinyin_input
        && l.daily_short_three_char.len() == 0 && (g.exact_guard_syllables == Some(2usize)
        || inp.final_short_phrase_intent == Some(2usize));
    if density {
        let l4 = lens_vec(&s4);
        let o5 = arrange_two_char_intent_page_density(&l4, inp.page_size);
        proof {
            lemma_two_char_density_is_permutation(l4@, inp.page_size);
            lemma_permutation_below(o5@, l4@.len());
        }
        pick_strings(&s4, &o5)
    } else {
        s4
    }
}

/// The phrases a typed abbreviation's exact length may bring first.
pub open spec fn top1_groups(l: PostprocessLists) -> Seq<Seq<Seq<char>>> {
    seq![
        strs_view(l.preferred@),
        strs_view(l.high_priority_two_char@),
        strs_view(l.chat_priority_two_char@),
        strs_view(l.daily_short_two_char@),
        strs_view(l.daily_short_three_char@),
    ]
}

/// What the exact-length promotion of a typed abbreviation adds and the
/// order it gives (nothing, and the list as it is, where it does not apply).
pub open spec fn top1_step(
    ph: Seq<Seq<char>>,
    first_blocks: bool,
    raw: Seq<char>,
    key: Seq<char>,
    groups: Seq<Seq<Seq<char>>>,
    table: Option<Seq<(Seq<char>, u64)>>,
) -> (Seq<Seq<char>>, Seq<usize>) {
    if exact_short_abbrev_top1_applies(ph.len(), first_blocks, raw, key, groups) {
        let group = exact_short_abbrev_top1_group(groups, key, table);
        let added = added_phrases(ph, seq![group]);
        (added, priority_order(ph + added, desired_phrases(seq![group])))
    } else {
        (Seq::empty(), identity(ph.len()))
    }
}

/// The close of the final stage (without the multi-syllable layout): the
/// final priority table promoted, the exact-length phrases of a typed
/// abbreviation brought first, the user's exact hotwords within the length
/// guard moved to the front, and corrections demoted after a confident long
/// exact phrase. Each candidate carries its user-priority, front-anchor,
/// place-holding, full-pinyin and demotable-correction flags; added
/// phrases carry none.
pub open spec fn final_postprocess_tail(
    ph: Seq<Seq<char>>,
    user_priority: Seq<bool>,
    anchors: Seq<bool>,
    holds: Seq<bool>,
    full_pinyin: Seq<bool>,
    demote: Seq<bool>,
    l: PostprocessLists,
    g: PostprocessGuards,
    raw: Seq<char>,
    key: Seq<char>,
    table: Option<Seq<(Seq<char>, u64)>>,
    front_limit: usize,
) -> Seq<Seq<char>> {
    let groups = postprocess_priority_groups(l, g);
    let a1 = added_phrases(ph, groups);
    let o1 = priority_order(ph + a1, desired_phrases(groups));
    let f1 = falses(a1.len());
    let s1 = pick(ph + a1, o1);
    let u1 = pick(user_priority + f1, o1);
    let n1 = pick(anchors + f1, o1);
    let h1 = pick(holds + f1, o1);
    let p1 = pick(full_pinyin + f1, o1);
    let d1 = pick(demote + f1, o1);
    let t = top1_step(s1, s1.len() > 0 && h1[0], raw, key, top1_groups(l), table);
    let f2 = falses(t.0.len());
    let s2 = pick(s1 + t.0, t.1);
    let u2 = pick(u1 + f2, t.1);
    let n2 = pick(n1 + f2, t.1);
    let p2 = pick(p1 + f2, t.1);
    let d2 = pick(d1 + f2, t.1);
    let hot = guarded(strs_view(l.exact_user@), length_guard(g));
    let o3 = hotword_front_order(s2, u2, n2, hot, length_guard(g), front_limit);
    let s3 = pick(s2, o3);
    let p3 = pick(p2, o3);
    let d3 = pick(d2, o3);
    pick(s3, corrections_demoted(lens_of(s3), s3.len() > 0 && p3[0], d3))
}

/// The final priority table promoted over `phrases`, with each flag list
/// following its candidate (added phrases get no flags).
fn promote_with_flags(
    phrases: &Vec<String>,
    groups: &Vec<Vec<String>>,
    flags: &Vec<Vec<bool>>,
) -> (r: (Vec<String>, Vec<Vec<bool>>))
    requires
        forall|k: int| 0 <= k < flags@.len() ==> #[trigger] flags@[k]@.len() == phrases.len(),
    ensures
        ({
            let added = added_phrases(strs_view(phrases@), groups_view(groups@));
            let o = priority_order(strs_view(phrases@) + added, desired_phrases(groups_view(groups@)));
            &&& strs_view(r.0@) == pick(strs_view(phrases@) + added, o)
            &&& r.1@.len() == flags@.len()
            &&& forall|k: int| 0 <= k < flags@.len() ==> #[trigger] r.1@[k]@ == pick(flags@[k]@ + falses(added.len()), o)
            &&& forall|k: int| 0 <= k < flags@.len() ==> #[trigger] r.1@[k]@.len() == r.0@.len()
        }),
{
    let (added, o) = promote_candidate_priority_groups(phrases, groups);
    let mut e: Vec<String> = Vec::new();
    crate::postprocess::append_strings(&mut e, phrases);
    crate::postprocess::append_strings(&mut e, &added);
    assert(strs_view(e@) =~= strs_view(phrases@) + strs_view(added@));
    assert(e@.len() == strs_view(e@).len());
    assert(added@.len() == strs_view(added@).len());
    let ne = e.len();
    assert(e@.len() == ne);
    proof {
        lemma_priority_order_is_permutation(strs_view(phrases@), groups_view(groups@));
        lemma_permutation_below(o@, e@.len());
    }
    let s = pick_strings(&e, &o);
    let mut out: Vec<Vec<bool>> = Vec::new();
    let mut k: usize = 0;
    while k < flags.len()
        invariant
            k <= flags.len(),
            forall|j: int| 0 <= j < flags@.len() ==> #[trigger] flags@[j]@.len() == phrases.len(),
            all_below(o@, e@.len() as int),
            e@.len() == phrases@.len() + added@.len(),
            strs_view(added@) == added_phrases(strs_view(phrases@), groups_view(groups@)),
            s@.len() == o@.len(),
            out@.len() == k,
            forall|j: int| 0 <= j < k ==> #[trigger] out@[j]@ == pick(
                flags@[j]@ + falses(strs_view(added@).len()),
                o@,
            ),
            forall|j: int| 0 <= j < k ==> #[trigger] out@[j]@.len() == s@.len(),
        decreases flags.len() - k,
    {
        let ext = with_falses(&flags[k], added.len());
        let picked = pick_bools(&ext, &o);
        out.push(picked);
        k += 1;
    }
    (s, out)
}

/// The close of the final stage (see `final_postprocess_tail`); `holds`
/// marks the candidates that hold their place at the front, `full_pinyin`
/// those that read as full pinyin, `demote` the corrections that may move
/// back. The stage is not the multi-syllable layout.
pub fn final_postprocess_order(
    phrases: &Vec<String>,
    user_priority: &Vec<bool>,
    anchors: &Vec<bool>,
    holds: &Vec<bool>,
    full_pinyin: &Vec<bool>,
    demote: &Vec<bool>,
    l: &PostprocessLists,
    g: PostprocessGuards,
    raw: &str,
    compact_key: &str,
    lexicon_frequencies: Option<&Vec<(String, u64)>>,
    front_limit: usize,
) -> (r: Vec<String>)
    requires
        user_priority.len() == phrases.len(),
        anchors.len() == phrases.len(),
        holds.len() == phrases.len(),
        full_pinyin.len() == phrases.len(),
        demote.len() == phrases.len(),
    ensures
        strs_view(r@) == final_postprocess_tail(
            strs_view(phrases@),
            user_priority@,
            anchors@,
            holds@,
            full_pinyin@,
            demote@,
            *l,
            g,
            raw@,
            compact_key@,
            table_view(lexicon_frequencies),
            front_limit,
        ),
{
    let groups = candidate_postprocess_priority_groups(l, g);
    let mut flags: Vec<Vec<bool>> = Vec::new();
    flags.push(user_priority.clone());
    flags.push(anchors.clone());
    flags.push(holds.clone());
    flags.push(full_pinyin.clone());
    flags.push(demote.clone());
    assert(flags@[0]@ == user_priority@ && flags@[1]@ == anchors@ && flags@[2]@ == holds@);
    assert(flags@[3]@ == full_pinyin@ && flags@[4]@ == demote@);
    let (s1, f1) = promote_with_flags(phrases, &groups, &flags);
    let ghost fl = f1@;
    assert(fl[0]@.len() == s1@.len() && fl[2]@.len() == s1@.len());
    let first_holds = s1.len() > 0 && f1[2][0];
    let mut tg: Vec<Vec<String>> = Vec::new();
    tg.push(clone_strings(&l.preferred));
    tg.push(clone_strings(&l.high_priority_two_char));
    tg.push(clone_strings(&l.chat_priority_two_char));
    tg.push(clone_strings(&l.daily_short_two_char));
    tg.push(clone_strings(&l.daily_short_three_char));
    assert(groups_view(tg@) =~= top1_groups(*l));
    let (a2, o2) = promote_preserved_exact_short_abbrev_top1(&s1, first_holds, raw, compact_key, &tg, lexicon_frequencies);
    let mut e2: Vec<String> = Vec::new();
    crate::postprocess::append_strings(&mut e2, &s1);
    crate::postprocess::append_strings(&mut e2, &a2);
    assert(strs_view(e2@) =~= strs_view(s1@) + strs_view(a2@));
    assert(e2@.len() == strs_view(e2@).len());
    assert(a2@.len() == strs_view(a2@).len());
    let ne2 = e2.len();
    assert(e2@.len() == ne2);
    proof {
        let ph1 = strs_view(s1@);
        if exact_short_abbrev_top1_applies(ph1.len(), first_holds, raw@, compact_key@, groups_view(tg@)) {
            let group = exact_short_abbrev_top1_group(groups_view(tg@), compact_key@, table_view(lexicon_frequencies));
            lemma_priority_order_is_permutation(ph1, seq![group]);
            lemma_permutation_below(o2@, e2@.len());
        } else {
            assert(all_below(o2@, e2@.len() as int));
        }
    }
    let s2 = pick_strings(&e2, &o2);
    let u2 = pick_bools(&with_falses(&f1[0], a2.len()), &o2);
    let n2 = pick_bools(&with_falses(&f1[1], a2.len()), &o2);
    let p2 = pick_bools(&with_falses(&f1[3], a2.len()), &o2);
    let d2 = pick_bools(&with_falses(&f1[4], a2.len()), &o2);
    let guard = if g.exact_guard_syllables.is_some() {
        g.exact_guard_syllables
    } else {
        g.overlong_pinned_exact_guard_syllables
    };
    let hot = guarded_vec(&l.exact_user, guard);
    assert(s2@.len() == strs_view(s2@).len());
    let n2s = s2.len();
    assert(s2@.len() == n2s);
    let o3 = promote_exact_user_hotwords_front(&s2, &u2, &n2, &hot, guard, front_limit);
    proof {
        lemma_hotword_front_order_is_permutation(strs_view(s2@), u2@, n2@, strs_view(hot@), guard, front_limit);
        lemma_permutation_below(o3@, s2@.len());
    }
    let s3 = pick_strings(&s2, &o3);
    let p3 = pick_bools(&p2, &o3);
    let d3 = pick_bools(&d2, &o3);
    let l3 = lens_vec(&s3);
    let top_full = s3.len() > 0 && p3[0];
    let o4 = demote_corrections_after_confident_long_exact(&l3, top_full, &d3);
    proof {
        lemma_corrections_demoted_is_permutation(l3@, top_full, d3@);
        lemma_permutation_below(o4@, l3@.len());
    }
    pick_strings(&s3, &o4)
}

} // verus!
