//! The first page of a quick first batch: the ranked candidates plus the
//! single characters that support them, laid out by the short-phrase
//! intent of the input, with the first preserved phrase after the user's
//! own candidates and a single character in sight.
use vstd::prelude::*;
use crate::learning::phrase_char_count;
use crate::pagination::{
    arrange_two_char_intent_page_density, clamp_page, identity, lemma_two_char_density_is_permutation,
    two_char_density, MAX_PAGE_SIZE,
};
use crate::postprocess::{
    all_below, apply_short_intent_final_candidate_density, ensure_single_char_visible_on_first_page,
    final_short_intent_density, lemma_final_density_keeps_short, lemma_preserved_after_user_priority_is_permutation,
    lemma_single_visible_bounds, preserved_after_user_priority, promote_first_preserved_after_user_priority,
    single_visible,
};
use crate::dict::contains_string;
use crate::text::{count_non_ws, prefix_of};
use crate::three_char::ThreeCharDensityPolicy;
use crate::user_lexicon::strs_view;

verus! {

/// The entries of `s` at the positions `order`, in that order.
pub open spec fn pick<A>(s: Seq<A>, order: Seq<usize>) -> Seq<A> {
    order.map_values(|i: usize| s[i as int])
}

/// The phrase lengths, in characters other than white space.
pub open spec fn lens_of(s: Seq<Seq<char>>) -> Seq<usize> {
    s.map_values(|p: Seq<char>| count_non_ws(p) as usize)
}

pub open spec fn falses(n: nat) -> Seq<bool> {
    Seq::new(n, |i: int| false)
}

/// Each phrase of `s` that is not in `listed`, once, where it first comes.
pub open spec fn fresh_items(listed: Seq<Seq<char>>, s: Seq<Seq<char>>) -> Seq<Seq<char>>
    decreases s.len(),
{
    if s.len() == 0 {
        Seq::empty()
    } else {
        let p = fresh_items(listed, s.drop_last());
        if listed.contains(s.last()) || p.contains(s.last()) {
            p
        } else {
            p.push(s.last())
        }
    }
}

/// The first page of a first batch: the ranked phrases `ph` (with their
/// user-priority and strong flags), then the first page's worth of the
/// supporting singles that are not listed yet; laid out for the intent
/// (two to four characters), for two characters also by the two-character
/// page layout; the first `preserved` phrase brought after the
/// user-priority candidates; and a single character moved onto the first
/// page when none is there.
pub open spec fn partial_first_page(
    ph: Seq<Seq<char>>,
    user_priority: Seq<bool>,
    strong: Seq<bool>,
    support: Seq<Seq<char>>,
    intent: Option<usize>,
    preserved: Seq<Seq<char>>,
    page_size: usize,
    pol: ThreeCharDensityPolicy,
) -> Seq<Seq<char>> {
    let extra = fresh_items(ph, prefix_of(support, clamp_page(page_size)));
    let s0 = ph + extra;
    let u0 = user_priority + falses(extra.len());
    let t0 = strong + falses(extra.len());
    let o1 = final_short_intent_density(lens_of(s0), t0, intent, page_size, pol);
    let s1 = pick(s0, o1);
    let u1 = pick(u0, o1);
    let o2 = if intent == Some(2usize) {
        two_char_density(lens_of(s1), page_size)
    } else {
        identity(s1.len())
    };
    let s2 = pick(s1, o2);
    let u2 = pick(u1, o2);
    let target = if preserved.len() > 0 {
        Some(preserved[0])
    } else {
        None
    };
    let s3 = pick(s2, preserved_after_user_priority(s2, u2, target));
    pick(s3, single_visible(lens_of(s3), page_size))
}

pub(crate) proof fn lemma_permutation_below(s: Seq<usize>, n: nat)
    requires
        n <= usize::MAX,
        s.to_multiset() == identity(n).to_multiset(),
    ensures
        all_below(s, n as int),
{
    broadcast use {vstd::seq_lib::group_to_multiset_ensures, vstd::multiset::group_multiset_axioms};

    assert forall|k: int| 0 <= k < s.len() implies #[trigger] s[k] < n by {
        assert(s.contains(s[k]));
        assert(s.to_multiset().count(s[k]) > 0);
        assert(identity(n).to_multiset().count(s[k]) > 0);
        assert(identity(n).contains(s[k]));
        let j = choose|j: int| 0 <= j < identity(n).len() && identity(n)[j] == s[k];
        assert(identity(n)[j] == j as usize);
    }
}

pub(crate) fn pick_strings(v: &Vec<String>, order: &Vec<usize>) -> (r: Vec<String>)
    requires
        all_below(order@, v.len() as int),
    ensures
        strs_view(r@) == pick(strs_view(v@), order@),
        r.len() == order.len(),
{
    let mut out: Vec<String> = Vec::new();
    let mut k: usize = 0;
    while k < order.len()
        invariant
            k <= order.len(),
            all_below(order@, v.len() as int),
            strs_view(out@) == pick(strs_view(v@), order@.take(k as int)),
        decreases order.len() - k,
    {
        let ghost before = strs_view(out@);
        assert(order@[k as int] < v.len());
        out.push(v[order[k]].clone());
        assert(strs_view(out@) =~= before.push(v@[order@[k as int] as int]@));
        assert(order@.take(k + 1) =~= order@.take(k as int).push(order@[k as int]));
        k += 1;
    }
    assert(order@.take(order.len() as int) =~= order@);
    out
}

pub(crate) fn pick_bools(v: &Vec<bool>, order: &Vec<usize>) -> (r: Vec<bool>)
    requires
        all_below(order@, v.len() as int),
    ensures
        r@ == pick(v@, order@),
        r.len() == order.len(),
{
    let mut out: Vec<bool> = Vec::new();
    let mut k: usize = 0;
    while k < order.len()
        invariant
            k <= order.len(),
            all_below(order@, v.len() as int),
            out@ == pick(v@, order@.take(k as int)),
        decreases order.len() - k,
    {
        assert(order@[k as int] < v.len());
        out.push(v[order[k]]);
        assert(order@.take(k + 1) =~= order@.take(k as int).push(order@[k as int]));
        assert(out@ =~= pick(v@, order@.take(k + 1)));
        k += 1;
    }
    assert(order@.take(order.len() as int) =~= order@);
    out
}

pub(crate) fn lens_vec(v: &Vec<String>) -> (r: Vec<usize>)
    ensures
        r@ == lens_of(strs_view(v@)),
{
    let mut out: Vec<usize> = Vec::new();
    let mut k: usize = 0;
    while k < v.len()
        invariant
            k <= v.len(),
            out@ == lens_of(strs_view(v@).take(k as int)),
        decreases v.len() - k,
    {
        let c = phrase_char_count(v[k].as_str());
        out.push(c);
        assert(strs_view(v@).take(k + 1) =~= strs_view(v@).take(k as int).push(v@[k as int]@));
        assert(out@ =~= lens_of(strs_view(v@).take(k + 1)));
        k += 1;
    }
    assert(strs_view(v@).take(v.len() as int) =~= strs_view(v@));
    out
}

fn push_falses(v: &mut Vec<bool>, n: usize)
    ensures
        final(v)@ == old(v)@ + falses(n as nat),
{
    let ghost start = v@;
    let mut k: usize = 0;
    while k < n
        invariant
            k <= n,
            v@ == start + falses(k as nat),
        decreases n - k,
    {
        v.push(false);
        k += 1;
        assert(v@ =~= start + falses(k as nat));
    }
}

/// The phrases of the first `ps` supports that `phrases` does not list,
/// each once.
fn fresh_supports(phrases: &Vec<String>, support: &Vec<String>, ps: usize) -> (r: Vec<String>)
    ensures
        strs_view(r@) == fresh_items(strs_view(phrases@), prefix_of(strs_view(support@), ps as int)),
        r.len() <= ps,
{
    let ghost ph = strs_view(phrases@);
    let ghost sup = prefix_of(strs_view(support@), ps as int);
    let take = if support.len() < ps { support.len() } else { ps };
    let mut extra: Vec<String> = Vec::new();
    let mut k: usize = 0;
    while k < take
        invariant
            k <= take,
            take <= support.len(),
            take <= ps,
            ph == strs_view(phrases@),
            sup == prefix_of(strs_view(support@), ps as int),
            take == sup.len(),
            strs_view(extra@) == fresh_items(ph, sup.take(k as int)),
            extra.len() <= k,
        decreases take - k,
    {
        let x = &support[k];
        assert(sup[k as int] == x@);
        assert(sup.take(k + 1).drop_last() =~= sup.take(k as int));
        assert(sup.take(k + 1).last() == x@);
        assert(strs_view(phrases@) == crate::dict::strings_view(phrases@));
        assert(strs_view(extra@) == crate::dict::strings_view(extra@));
        if !contains_string(phrases, x) && !contains_string(&extra, x) {
            let ghost before = strs_view(extra@);
            extra.push(x.clone());
            assert(strs_view(extra@) =~= before.push(x@));
        }
        k += 1;
    }
    assert(sup.take(take as int) =~= sup);
    extra
}

/// `v` followed by `n` false flags.
pub(crate) fn with_falses(v: &Vec<bool>, n: usize) -> (r: Vec<bool>)
    ensures
        r@ == v@ + falses(n as nat),
{
    let mut out: Vec<bool> = Vec::new();
    let mut i: usize = 0;
    while i < v.len()
        invariant
            i <= v.len(),
            out@ == v@.take(i as int),
        decreases v.len() - i,
    {
        out.push(v[i]);
        assert(out@ =~= v@.take(i + 1));
        i += 1;
    }
    assert(v@.take(v.len() as int) =~= v@);
    push_falses(&mut out, n);
    out
}

/// Lays out the first page of a first batch (see `partial_first_page`):
/// `phrases` are the ranked candidates, with `user_priority` and `strong`
/// flags (user priority or a high lexicon frequency); `support` the single
/// characters that support them, best first; `intent` the short-phrase
/// intent of the input; `preserved` the phrases to keep in front (empty
/// when the reading has selection feedback).
pub fn shape_partial_first_page(
    phrases: &Vec<String>,
    user_priority: &Vec<bool>,
    strong: &Vec<bool>,
    support: &Vec<String>,
    intent: Option<usize>,
    preserved: &Vec<String>,
    page_size: usize,
    pol: &ThreeCharDensityPolicy,
) -> (r: Vec<String>)
    requires
        phrases.len() == user_priority.len(),
        phrases.len() == strong.len(),
        phrases.len() + MAX_PAGE_SIZE <= usize::MAX,
    ensures
        strs_view(r@) == partial_first_page(
            strs_view(phrases@),
            user_priority@,
            strong@,
            strs_view(support@),
            intent,
            strs_view(preserved@),
            page_size,
            *pol,
        ),
{
    let ps: usize = if page_size < 3 {
        3
    } else if page_size > MAX_PAGE_SIZE {
        MAX_PAGE_SIZE
    } else {
        page_size
    };
    let extra = fresh_supports(phrases, support, ps);
    let ne = extra.len();
    let mut s0: Vec<String> = Vec::new();
    crate::postprocess::append_strings(&mut s0, phrases);
    crate::postprocess::append_strings(&mut s0, &extra);
    let u0 = with_falses(user_priority, ne);
    let t0 = with_falses(strong, ne);
    assert(strs_view(s0@) =~= strs_view(phrases@) + strs_view(extra@));
    assert(s0@.len() == strs_view(s0@).len());
    assert(extra@.len() == strs_view(extra@).len());
    assert(s0@.len() == u0@.len());
    let l0 = lens_vec(&s0);
    let o1 = apply_short_intent_final_candidate_density(&l0, &t0, intent, page_size, pol);
    proof {
        lemma_final_density_keeps_short(l0@, t0@, intent, page_size, *pol);
    }
    let s1 = pick_strings(&s0, &o1);
    let u1 = pick_bools(&u0, &o1);
    let l1 = lens_vec(&s1);
    let o2 = if intent == Some(2usize) {
        proof {
            lemma_two_char_density_is_permutation(l1@, page_size);
            lemma_permutation_below(two_char_density(l1@, page_size), l1@.len());
        }
        arrange_two_char_intent_page_density(&l1, page_size)
    } else {
        crate::postprocess::identity_vec(s1.len())
    };
    assert(all_below(o2@, s1.len() as int));
    let s2 = pick_strings(&s1, &o2);
    let u2 = pick_bools(&u1, &o2);
    let o3 = promote_first_preserved_after_user_priority(&s2, &u2, preserved);
    proof {
        lemma_preserved_after_user_priority_is_permutation(
            strs_view(s2@),
            u2@,
            if preserved.len() > 0 {
                Some(preserved@[0]@)
            } else {
                None
            },
        );
        lemma_permutation_below(o3@, s2@.len());
    }
    let s3 = pick_strings(&s2, &o3);
    let l3 = lens_vec(&s3);
    let o4 = ensure_single_char_visible_on_first_page(&l3, page_size);
    proof {
        lemma_single_visible_bounds(l3@, page_size);
    }
    assert(all_below(o4@, s3.len() as int));
    pick_strings(&s3, &o4)
}

} // verus!
