//! Common single characters after the user's candidates: the characters
//! of the common-character frequency list come right after the candidates
//! with user priority, in the list's order, and the other candidates follow.
//! A listed character that the ranked list lacks is added as a new
//! candidate. The result is the added characters and the new order, as
//! positions into the ranked list followed by them.
use vstd::prelude::*;
use crate::cache::TSF_MAX_CANDIDATES;
use crate::dict::{contains_string, strings_view};
use crate::pagination::identity;
use crate::postprocess::{flagged, flagged_positions, identity_vec, lemma_flagged_shape};
use crate::text::push_char;
use crate::user_lexicon::strs_view;

verus! {

/// Some candidate with user priority holds `p`.
pub open spec fn user_holds(ph: Seq<Seq<char>>, user: Seq<bool>, p: Seq<char>) -> bool {
    exists|i: int| 0 <= i < ph.len() && user[i] && (#[trigger] ph[i]) == p
}

/// The last candidate without user priority that holds `p`.
pub open spec fn last_ordinary_from(ph: Seq<Seq<char>>, user: Seq<bool>, p: Seq<char>, n: int) -> Option<int>
    decreases n,
{
    if n <= 0 {
        None
    } else if !user[n - 1] && ph[n - 1] == p {
        Some(n - 1)
    } else {
        last_ordinary_from(ph, user, p, n - 1)
    }
}

pub open spec fn last_ordinary(ph: Seq<Seq<char>>, user: Seq<bool>, p: Seq<char>) -> Option<int> {
    last_ordinary_from(ph, user, p, ph.len() as int)
}

/// What has been laid out: the phrases already taken, the order so far and
/// the added characters.
pub type CommonState = (Seq<Seq<char>>, Seq<usize>, Seq<Seq<char>>);

/// One listed character laid out: skipped when a user candidate holds it;
/// the last ordinary candidate that holds it when that is not taken yet;
/// else a new candidate.
pub open spec fn common_step(ph: Seq<Seq<char>>, user: Seq<bool>, st: CommonState, c: char) -> CommonState {
    let p = seq![c];
    if user_holds(ph, user, p) {
        st
    } else {
        match last_ordinary(ph, user, p) {
            Some(i) => if !st.0.contains(p) {
                (st.0.push(p), st.1.push(i as usize), st.2)
            } else {
                (st.0, st.1.push((ph.len() + st.2.len()) as usize), st.2.push(p))
            },
            None => (st.0, st.1.push((ph.len() + st.2.len()) as usize), st.2.push(p)),
        }
    }
}

pub open spec fn common_fold(ph: Seq<Seq<char>>, user: Seq<bool>, st: CommonState, cs: Seq<char>) -> CommonState
    decreases cs.len(),
{
    if cs.len() == 0 {
        st
    } else {
        common_step(ph, user, common_fold(ph, user, st, cs.drop_last()), cs.last())
    }
}

/// One ordinary candidate laid out: its phrase, at the place of its last
/// ordinary holder, unless that phrase was taken already.
pub open spec fn rest_step(ph: Seq<Seq<char>>, user: Seq<bool>, st: CommonState, j: usize) -> CommonState {
    let p = ph[j as int];
    if !st.0.contains(p) {
        (st.0.push(p), st.1.push(last_ordinary(ph, user, p).unwrap() as usize), st.2)
    } else {
        st
    }
}

pub open spec fn rest_fold(ph: Seq<Seq<char>>, user: Seq<bool>, st: CommonState, js: Seq<usize>) -> CommonState
    decreases js.len(),
{
    if js.len() == 0 {
        st
    } else {
        rest_step(ph, user, rest_fold(ph, user, st, js.drop_last()), js.last())
    }
}

/// The layout: the candidates with user priority in order; then the first
/// `64 - (their number)` listed characters as `common_step` lays them out;
/// then each ordinary phrase not taken yet, once, in the order of its
/// first ordinary holder, at the place of its last. Without listed
/// characters the list stays.
pub open spec fn common_singles_layout(ph: Seq<Seq<char>>, user: Seq<bool>, common: Seq<char>) -> CommonState {
    if common.len() == 0 {
        (Seq::empty(), identity(ph.len()), Seq::empty())
    } else {
        let up = flagged(user, ph.len() as int, true);
        let cap = if TSF_MAX_CANDIDATES > up.len() { TSF_MAX_CANDIDATES - up.len() } else { 0 };
        let taken = if common.len() <= cap { common } else { common.take(cap as int) };
        let st = common_fold(ph, user, (Seq::empty(), up, Seq::empty()), taken);
        rest_fold(ph, user, st, flagged(user, ph.len() as int, false))
    }
}

fn last_ordinary_exec(phrases: &Vec<String>, user: &Vec<bool>, p: &String) -> (r: Option<usize>)
    requires
        user.len() == phrases.len(),
    ensures
        match r {
            Some(i) => last_ordinary(strs_view(phrases@), user@, p@) == Some(i as int) && i < phrases.len(),
            None => last_ordinary(strs_view(phrases@), user@, p@) is None,
        },
{
    let ghost ph = strs_view(phrases@);
    let mut n = phrases.len();
    while n > 0
        invariant
            n <= phrases.len(),
            user.len() == phrases.len(),
            ph == strs_view(phrases@),
            last_ordinary_from(ph, user@, p@, n as int) == last_ordinary(ph, user@, p@),
        decreases n,
    {
        if !user[n - 1] && phrases[n - 1] == *p {
            return Some(n - 1);
        }
        n -= 1;
    }
    None
}

fn user_holds_exec(phrases: &Vec<String>, user: &Vec<bool>, p: &String) -> (r: bool)
    requires
        user.len() == phrases.len(),
    ensures
        r == user_holds(strs_view(phrases@), user@, p@),
{
    let ghost ph = strs_view(phrases@);
    let mut i: usize = 0;
    while i < phrases.len()
        invariant
            i <= phrases.len(),
            user.len() == phrases.len(),
            ph == strs_view(phrases@),
            forall|k: int| 0 <= k < i && user@[k] ==> (#[trigger] ph[k]) != p@,
        decreases phrases.len() - i,
    {
        if user[i] && phrases[i] == *p {
            assert(ph[i as int] == p@);
            return true;
        }
        i += 1;
    }
    false
}

/// Puts the common single characters, in the order of the frequency list
/// `common_order`, right after the candidates with user priority (marked
/// in `user_priority`); a listed character that the list lacks is added
/// as a new candidate, one that a user candidate holds is skipped, and at
/// most 64 candidates lead in all. The other candidates follow, each phrase
/// once. Gives the added characters and the new order as positions into
/// `phrases` followed by them.
pub fn promote_common_single_chars_after_user_priority(
    phrases: &Vec<String>,
    user_priority: &Vec<bool>,
    common_order: &Vec<char>,
) -> (r: (Vec<String>, Vec<usize>))
    requires
        user_priority.len() == phrases.len(),
        phrases.len() + common_order.len() <= usize::MAX,
    ensures
        ({
            let st = common_singles_layout(strs_view(phrases@), user_priority@, common_order@);
            &&& strs_view(r.0@) == st.2
            &&& r.1@ == st.1
        }),
{
    let n = phrases.len();
    if common_order.len() == 0 {
        let added: Vec<String> = Vec::new();
        assert(strs_view(added@) =~= Seq::<Seq<char>>::empty());
        return (added, identity_vec(n));
    }
    let ghost ph = strs_view(phrases@);
    let ghost uv = user_priority@;
    let mut order = flagged_positions(user_priority, true);
    let ordinary = flagged_positions(user_priority, false);
    let cap = if TSF_MAX_CANDIDATES > order.len() { TSF_MAX_CANDIDATES - order.len() } else { 0 };
    let take = if common_order.len() <= cap { common_order.len() } else { cap };
    let ghost taken = if common_order@.len() <= cap { common_order@ } else { common_order@.take(cap as int) };
    assert(taken =~= common_order@.take(take as int));
    let mut consumed: Vec<String> = Vec::new();
    let mut added: Vec<String> = Vec::new();
    let ghost start: CommonState = (Seq::empty(), order@, Seq::empty());
    let mut k: usize = 0;
    while k < take
        invariant
            k <= take <= common_order.len(),
            n == phrases.len(),
            user_priority.len() == n,
            n + common_order.len() <= usize::MAX,
            ph == strs_view(phrases@),
            uv == user_priority@,
            added@.len() <= k,
            (strs_view(consumed@), order@, strs_view(added@)) == common_fold(ph, uv, start, common_order@.take(k as int)),
        decreases take - k,
    {
        proof {
            assert(common_order@.take(k + 1).drop_last() =~= common_order@.take(k as int));
            assert(common_order@.take(k + 1).last() == common_order@[k as int]);
        }
        let mut p = String::new();
        push_char(&mut p, common_order[k]);
        assert(p@ =~= seq![common_order@[k as int]]);
        if !user_holds_exec(phrases, user_priority, &p) {
            assert(strings_view(consumed@) =~= strs_view(consumed@));
            let fresh = match last_ordinary_exec(phrases, user_priority, &p) {
                Some(i) => {
                    if !contains_string(&consumed, &p) {
                        let ghost c0 = strs_view(consumed@);
                        consumed.push(p.clone());
                        assert(strs_view(consumed@) =~= c0.push(p@));
                        order.push(i);
                        false
                    } else {
                        true
                    }
                },
                None => true,
            };
            if fresh {
                order.push(n + added.len());
                let ghost a0 = strs_view(added@);
                added.push(p);
                assert(strs_view(added@) =~= a0.push(seq![common_order@[k as int]]));
            }
        }
        k += 1;
    }
    let ghost mid: CommonState = (strs_view(consumed@), order@, strs_view(added@));
    proof {
        lemma_flagged_shape(uv, n as int, false);
    }
    let mut j: usize = 0;
    while j < ordinary.len()
        invariant
            j <= ordinary.len(),
            n == phrases.len(),
            user_priority.len() == n,
            ph == strs_view(phrases@),
            uv == user_priority@,
            ordinary@ == flagged(uv, n as int, false),
            forall|i: int| 0 <= i < ordinary@.len() ==> #[trigger] ordinary@[i] < n && !uv[ordinary@[i] as int],
            strs_view(added@) == mid.2,
            (strs_view(consumed@), order@, strs_view(added@)) == rest_fold(ph, uv, mid, ordinary@.take(j as int)),
        decreases ordinary.len() - j,
    {
        proof {
            assert(ordinary@.take(j + 1).drop_last() =~= ordinary@.take(j as int));
            assert(ordinary@.take(j + 1).last() == ordinary@[j as int]);
        }
        let q = ordinary[j];
        assert(q < n && !uv[q as int]);
        assert(strings_view(consumed@) =~= strs_view(consumed@));
        if !contains_string(&consumed, &phrases[q]) {
            let last = last_ordinary_exec(phrases, user_priority, &phrases[q]);
            proof {
                assert(last_ordinary_from(ph, uv, ph[q as int], n as int) is Some) by {
                    lemma_last_ordinary_found(ph, uv, ph[q as int], n as int, q as int);
                }
            }
            let i = last.unwrap();
            let ghost c0 = strs_view(consumed@);
            consumed.push(phrases[q].clone());
            assert(strs_view(consumed@) =~= c0.push(ph[q as int]));
            order.push(i);
        }
        j += 1;
    }
    assert(ordinary@.take(ordinary.len() as int) =~= ordinary@);
    (added, order)
}

proof fn lemma_last_ordinary_found(ph: Seq<Seq<char>>, user: Seq<bool>, p: Seq<char>, n: int, q: int)
    requires
        0 <= q < n <= ph.len(),
        n <= user.len(),
        !user[q],
        ph[q] == p,
    ensures
        last_ordinary_from(ph, user, p, n) is Some,
    decreases n,
{
    if !(!user[n - 1] && ph[n - 1] == p) {
        lemma_last_ordinary_found(ph, user, p, n - 1, q);
    }
}

} // verus!
