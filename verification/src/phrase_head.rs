//! The layout of a complete multi-syllable full-pinyin input: a head of
//! whole phrases as long as the input has syllables, the single characters
//! of the first syllable filling the rest of the first page and the last
//! slots of every later page (so that the user can compose word by word on
//! any page), then the singles that are left. What the layout reads of each ranked candidate
//! comes in as plain flags; the single characters and prefix phrases that
//! the lexicon offers come in as phrase lists. The result is the new order,
//! as positions into the ranked list followed by those lists.
use vstd::prelude::*;
use crate::learning::phrase_char_count;
use crate::postprocess::append_strings;
use crate::pagination::{clamp_page, identity, MAX_PAGE_SIZE};
use crate::text::count_non_ws;
use crate::three_char::{THREE_CHAR_CONFIDENT_FRONT_MAX, THREE_CHAR_CONFIDENT_FRONT_MIN};
use crate::user_lexicon::strs_view;

verus! {

/// The least and the most whole phrases that lead a multi-syllable page.
pub const MULTI_SYLL_PHRASE_HEAD_MIN: usize = 3;
pub const MULTI_SYLL_PHRASE_HEAD_MAX: usize = 6;

/// What the layout reads of one ranked candidate.
#[derive(Clone, Copy, Debug)]
pub struct PhraseHeadRow {
    /// A single character that reads as the input's first syllable.
    pub first_syllable_match: bool,
    /// The lexicon lists the phrase under the whole input.
    pub exact_reading: bool,
    /// Its lexicon frequency is below the floor of the phrase head.
    pub low_frequency: bool,
    /// Its score falls further below that of the previous candidate of its
    /// group (same length, same exactness) than the head allows.
    pub score_drop: bool,
    /// It may fill the front of a two-syllable input: it has user priority,
    /// or it belongs to a core lexicon layer, or it is frequent enough.
    pub strong_exact: bool,
}

/// `x` added at the end of `out` unless a candidate with the same phrase
/// is already there.
pub open spec fn push_unique(ext: Seq<Seq<char>>, out: Seq<usize>, x: usize) -> Seq<usize> {
    if exists|k: int| 0 <= k < out.len() && ext[#[trigger] out[k] as int] == ext[x as int] {
        out
    } else {
        out.push(x)
    }
}

/// Each of `s` in turn added with `push_unique`.
pub open spec fn push_all(ext: Seq<Seq<char>>, out: Seq<usize>, s: Seq<usize>) -> Seq<usize>
    decreases s.len(),
{
    if s.len() == 0 {
        out
    } else {
        push_unique(ext, push_all(ext, out, s.drop_last()), s.last())
    }
}

pub open spec fn head_len_from(items: Seq<usize>, rows: Seq<PhraseHeadRow>, head_min: int, head_max: int, j: int) -> int
    decreases items.len() - j,
{
    if j >= items.len() || j >= head_max {
        j
    } else if j >= head_min && (rows[items[j] as int].low_frequency || rows[items[j] as int].score_drop) {
        j
    } else {
        head_len_from(items, rows, head_min, head_max, j + 1)
    }
}

/// How many of `items` form the head: the first always; then each next
/// one while the head is shorter than `head_max`, unless the head has
/// reached `head_min` and the candidate is rare or drops in score.
pub open spec fn head_len(items: Seq<usize>, rows: Seq<PhraseHeadRow>, head_min: usize, head_max: usize) -> int {
    let hmax = if head_max < 1 { 1int } else { head_max as int };
    let hmin0 = if head_min < 1 { 1int } else { head_min as int };
    let hmin = if hmin0 < hmax { hmin0 } else { hmax };
    if items.len() == 0 {
        0
    } else {
        head_len_from(items, rows, hmin, hmax, 1)
    }
}

proof fn lemma_head_len_from_bounds(items: Seq<usize>, rows: Seq<PhraseHeadRow>, head_min: int, head_max: int, j: int)
    requires
        0 <= j <= items.len(),
    ensures
        j <= head_len_from(items, rows, head_min, head_max, j) <= items.len(),
    decreases items.len() - j,
{
    if !(j >= items.len() || j >= head_max) && !(j >= head_min && (rows[items[j] as int].low_frequency
        || rows[items[j] as int].score_drop)) {
        lemma_head_len_from_bounds(items, rows, head_min, head_max, j + 1);
    }
}

proof fn lemma_head_len_bounds(items: Seq<usize>, rows: Seq<PhraseHeadRow>, head_min: usize, head_max: usize)
    ensures
        0 <= head_len(items, rows, head_min, head_max) <= items.len(),
{
    let hmax = if head_max < 1 { 1int } else { head_max as int };
    let hmin0 = if head_min < 1 { 1int } else { head_min as int };
    let hmin = if hmin0 < hmax { hmin0 } else { hmax };
    if items.len() > 0 {
        lemma_head_len_from_bounds(items, rows, hmin, hmax, 1);
    }
}

fn push_unique_exec(out: &mut Vec<usize>, ext: &Vec<String>, x: usize)
    requires
        x < ext.len(),
        forall|k: int| 0 <= k < old(out)@.len() ==> #[trigger] old(out)@[k] < ext.len(),
    ensures
        final(out)@ == push_unique(strs_view(ext@), old(out)@, x),
        forall|k: int| 0 <= k < final(out)@.len() ==> #[trigger] final(out)@[k] < ext.len(),
{
    let ghost ev = strs_view(ext@);
    let mut k: usize = 0;
    while k < out.len()
        invariant
            k <= out.len(),
            x < ext.len(),
            ev == strs_view(ext@),
            forall|i: int| 0 <= i < out@.len() ==> #[trigger] out@[i] < ext.len(),
            forall|i: int| 0 <= i < k ==> ev[#[trigger] out@[i] as int] != ev[x as int],
        decreases out.len() - k,
    {
        let y = out[k];
        assert(y < ext.len());
        if ext[y] == ext[x] {
            assert(ev[out@[k as int] as int] == ev[x as int]);
            return;
        }
        k += 1;
    }
    out.push(x);
}

fn push_all_exec(out: &mut Vec<usize>, ext: &Vec<String>, s: &Vec<usize>)
    requires
        forall|k: int| 0 <= k < s@.len() ==> #[trigger] s@[k] < ext.len(),
        forall|k: int| 0 <= k < old(out)@.len() ==> #[trigger] old(out)@[k] < ext.len(),
    ensures
        final(out)@ == push_all(strs_view(ext@), old(out)@, s@),
        forall|k: int| 0 <= k < final(out)@.len() ==> #[trigger] final(out)@[k] < ext.len(),
{
    let ghost ev = strs_view(ext@);
    let ghost start = out@;
    let mut i: usize = 0;
    while i < s.len()
        invariant
            i <= s.len(),
            ev == strs_view(ext@),
            forall|k: int| 0 <= k < s@.len() ==> #[trigger] s@[k] < ext.len(),
            forall|k: int| 0 <= k < out@.len() ==> #[trigger] out@[k] < ext.len(),
            out@ == push_all(ev, start, s@.take(i as int)),
        decreases s.len() - i,
    {
        proof {
            assert(s@.take(i + 1).drop_last() =~= s@.take(i as int));
            assert(s@.take(i + 1).last() == s@[i as int]);
        }
        push_unique_exec(out, ext, s[i]);
        i += 1;
    }
    assert(s@.take(s.len() as int) =~= s@);
}

/// The head length of `items` (see `head_len`).
fn head_len_exec(items: &Vec<usize>, rows: &Vec<PhraseHeadRow>, head_min: usize, head_max: usize) -> (r: usize)
    requires
        forall|k: int| 0 <= k < items@.len() ==> #[trigger] items@[k] < rows.len(),
    ensures
        r == head_len(items@, rows@, head_min, head_max),
        r <= items.len(),
{
    if items.len() == 0 {
        return 0;
    }
    let hmax: usize = if head_max < 1 { 1 } else { head_max };
    let hmin0: usize = if head_min < 1 { 1 } else { head_min };
    let hmin: usize = if hmin0 < hmax { hmin0 } else { hmax };
    let mut j: usize = 1;
    proof {
        lemma_head_len_from_bounds(items@, rows@, hmin as int, hmax as int, 1);
    }
    while j < items.len() && j < hmax && !(j >= hmin && (rows[items[j]].low_frequency || rows[items[j]].score_drop))
        invariant
            1 <= j <= items.len(),
            forall|k: int| 0 <= k < items@.len() ==> #[trigger] items@[k] < rows.len(),
            head_len_from(items@, rows@, hmin as int, hmax as int, j as int) == head_len(items@, rows@, head_min, head_max),
        decreases items.len() - j,
    {
        j += 1;
    }
    j
}

/// The layout's inputs other than the candidates.
#[derive(Clone, Copy, Debug)]
pub struct PhraseHeadLayout {
    /// How many syllables the input has.
    pub syllable_count: usize,
    /// The input parsed into at least one syllable.
    pub has_first_syllable: bool,
    /// The input is longer than a long input's limit.
    pub long_input: bool,
    /// The user is composing a phrase character by character.
    pub composing_phrase: bool,
    /// The candidate page size the user set.
    pub page_size: usize,
}

pub open spec fn first_strong_from(et: Seq<usize>, rows: Seq<PhraseHeadRow>, i: int) -> Option<int>
    decreases et.len() - i,
{
    if i < 0 || i >= et.len() {
        None
    } else if rows[et[i] as int].strong_exact {
        Some(i)
    } else {
        first_strong_from(et, rows, i + 1)
    }
}

/// The front of a two-syllable input filled with up to `count` more
/// candidates, each from the rest of the exact head, else the first strong
/// one of the exact tail, else the prefix phrases; with what is left of
/// those three.
pub open spec fn front_fill(
    ext: Seq<Seq<char>>,
    rows: Seq<PhraseHeadRow>,
    out: Seq<usize>,
    eh: Seq<usize>,
    et: Seq<usize>,
    pr: Seq<usize>,
    count: nat,
) -> (Seq<usize>, Seq<usize>, Seq<usize>, Seq<usize>)
    decreases count,
{
    if count == 0 {
        (out, eh, et, pr)
    } else if eh.len() > 0 {
        front_fill(ext, rows, push_unique(ext, out, eh[0]), eh.drop_first(), et, pr, (count - 1) as nat)
    } else {
        match first_strong_from(et, rows, 0) {
            Some(k) => front_fill(ext, rows, push_unique(ext, out, et[k]), eh, et.remove(k), pr, (count - 1) as nat),
            None => if pr.len() > 0 {
                front_fill(ext, rows, push_unique(ext, out, pr[0]), eh, et, pr.drop_first(), (count - 1) as nat)
            } else {
                (out, eh, et, pr)
            },
        }
    }
}

pub open spec fn is_ranked_single(ph: Seq<Seq<char>>, rows: Seq<PhraseHeadRow>) -> spec_fn(usize) -> bool {
    |i: usize| count_non_ws(ph[i as int]) == 1 && rows[i as int].first_syllable_match
}

pub open spec fn is_exact_multi(ph: Seq<Seq<char>>, rows: Seq<PhraseHeadRow>, sc: usize) -> spec_fn(usize) -> bool {
    |i: usize| count_non_ws(ph[i as int]) == sc && sc >= 2 && rows[i as int].exact_reading
}

pub open spec fn is_composed_multi(ph: Seq<Seq<char>>, rows: Seq<PhraseHeadRow>, sc: usize) -> spec_fn(usize) -> bool {
    |i: usize| count_non_ws(ph[i as int]) == sc && sc >= 2 && !rows[i as int].exact_reading
}

pub open spec fn is_other_length(ph: Seq<Seq<char>>, sc: usize) -> spec_fn(usize) -> bool {
    |i: usize| count_non_ws(ph[i as int]) != 1 && !(count_non_ws(ph[i as int]) == sc && sc >= 2)
}

/// The positions `start`, `start + 1`, ... , `len` of them.
pub open spec fn range_from(start: int, len: int) -> Seq<usize> {
    Seq::new(len as nat, |k: int| (start + k) as usize)
}

pub open spec fn min_of(a: int, b: int) -> int {
    if a < b {
        a
    } else {
        b
    }
}

pub open spec fn exact_head_bounds(sc: usize) -> (usize, usize) {
    if sc == 3 {
        (THREE_CHAR_CONFIDENT_FRONT_MIN, THREE_CHAR_CONFIDENT_FRONT_MAX)
    } else {
        (MULTI_SYLL_PHRASE_HEAD_MIN, MULTI_SYLL_PHRASE_HEAD_MAX)
    }
}

/// The single characters offered after the head: the first of those that
/// the lexicon ranks for the first syllable (four while composing, one for a
/// long input, else two), those of the ranked list, and (but for a long
/// input) the syllable's pool.
pub open spec fn head_singles(n: int, first_len: int, pool_len: int, ranked_singles: Seq<usize>, lay: PhraseHeadLayout) -> Seq<usize> {
    let take = if lay.composing_phrase {
        4int
    } else if lay.long_input {
        1int
    } else {
        2int
    };
    range_from(n, min_of(take, first_len)) + ranked_singles + if lay.long_input {
        Seq::empty()
    } else {
        range_from(n + first_len, pool_len)
    }
}

pub open spec fn reserved_single_slots(lay: PhraseHeadLayout) -> int {
    let ps = clamp_page(lay.page_size);
    if lay.composing_phrase {
        min_of(3, ps - 1)
    } else {
        min_of(1, ps - 1)
    }
}

/// The slot at `len` belongs to a single character: every slot of the first
/// page, and the last `reserve` slots of each later page.
pub open spec fn single_slot(len: int, ps: int, reserve: int) -> bool {
    len < ps || len % ps >= ps - reserve
}

/// The singles from `si` on, added while the next slot belongs to a single;
/// with the index of the first single not yet considered.
pub open spec fn fill_slots(ext: Seq<Seq<char>>, out: Seq<usize>, singles: Seq<usize>, si: int, ps: int, reserve: int) -> (Seq<usize>, int)
    decreases singles.len() - si,
{
    if 0 <= si < singles.len() && single_slot(out.len() as int, ps, reserve) {
        fill_slots(ext, push_unique(ext, out, singles[si]), singles, si + 1, ps, reserve)
    } else {
        (out, si)
    }
}

/// Each of `items` added in turn, each after the singles that the slots
/// before it call for.
pub open spec fn interleave(ext: Seq<Seq<char>>, out: Seq<usize>, items: Seq<usize>, singles: Seq<usize>, ps: int, reserve: int) -> (Seq<usize>, int)
    decreases items.len(),
{
    if items.len() == 0 {
        (out, 0)
    } else {
        let p = interleave(ext, out, items.drop_last(), singles, ps, reserve);
        let f = fill_slots(ext, p.0, singles, p.1, ps, reserve);
        (push_unique(ext, f.0, items.last()), f.1)
    }
}

/// After the head `out`: `rest` with the singles spread over the single
/// slots of each page, then the singles that are left.
pub open spec fn spread_singles(ext: Seq<Seq<char>>, out: Seq<usize>, rest: Seq<usize>, singles: Seq<usize>, ps: int, reserve: int) -> Seq<usize> {
    let p = interleave(ext, out, rest, singles, ps, reserve);
    push_all(ext, p.0, singles.skip(p.1))
}

/// The layout when some phrases read exactly as the input: the exact head
/// up to the front limit, prefix phrases up to it, the front filled for
/// two syllables; then the rest of the exact head, the exact tail, the
/// other prefix phrases, the composed phrases and the others, with the
/// singles on the single slots of each page.
pub open spec fn exact_layout_order(
    ext: Seq<Seq<char>>,
    rows: Seq<PhraseHeadRow>,
    exact: Seq<usize>,
    he: int,
    composed: Seq<usize>,
    hc: int,
    others: Seq<usize>,
    singles: Seq<usize>,
    prefix_pos: Seq<usize>,
    front_limit: int,
    ps: int,
    reserve: int,
    fill: bool,
) -> Seq<usize> {
    let page_room = ps - reserve;
    let ef = min_of(he, front_limit);
    let out1 = push_all(ext, Seq::empty(), exact.take(ef));
    let pf = min_of(prefix_pos.len() as int, if front_limit > ef { front_limit - ef } else { 0 });
    let out2 = push_all(ext, out1, prefix_pos.take(pf));
    let eh = exact.subrange(ef, he);
    let et = exact.skip(he);
    let pr = prefix_pos.skip(pf);
    let st = if fill {
        front_fill(ext, rows, out2, eh, et, pr, (if page_room > out2.len() { page_room - out2.len() } else { 0 }) as nat)
    } else {
        (out2, eh, et, pr)
    };
    let rest = st.1 + st.2 + st.3 + composed.take(hc) + composed.skip(hc) + others;
    spread_singles(ext, st.0, rest, singles, ps, reserve)
}

/// The layout without exact phrases: the composed head up to the front
/// limit, then the rest of the composed phrases and the others, with the
/// singles on the single slots of each page.
pub open spec fn composed_layout_order(
    ext: Seq<Seq<char>>,
    composed: Seq<usize>,
    hc: int,
    others: Seq<usize>,
    singles: Seq<usize>,
    front_limit: int,
    ps: int,
    reserve: int,
) -> Seq<usize> {
    let cf = min_of(hc, front_limit);
    let o1 = push_all(ext, Seq::empty(), composed.take(cf));
    let rest = composed.subrange(cf, hc) + composed.skip(hc) + others;
    spread_singles(ext, o1, rest, singles, ps, reserve)
}

/// The order of the multi-syllable layout, as positions into the ranked
/// list followed by the first-syllable singles, the syllable pool and the
/// prefix phrases. Single characters that do not read as the first
/// syllable leave the list, and so does everything without a first
/// syllable.
pub open spec fn phrase_head_order(
    ph: Seq<Seq<char>>,
    rows: Seq<PhraseHeadRow>,
    first: Seq<Seq<char>>,
    pool: Seq<Seq<char>>,
    prefix: Seq<Seq<char>>,
    lay: PhraseHeadLayout,
) -> Seq<usize> {
    if !lay.has_first_syllable {
        Seq::empty()
    } else {
        let n = ph.len() as int;
        let ext = ph + first + pool + prefix;
        let id = identity(ph.len());
        let sc = lay.syllable_count;
        let exact = id.filter(is_exact_multi(ph, rows, sc));
        let composed = id.filter(is_composed_multi(ph, rows, sc));
        let others = id.filter(is_other_length(ph, sc));
        let singles = head_singles(n, first.len() as int, pool.len() as int, id.filter(is_ranked_single(ph, rows)), lay);
        let has_exact = exact.len() > 0;
        let he = head_len(exact, rows, exact_head_bounds(sc).0, exact_head_bounds(sc).1);
        let hc = head_len(composed, rows, MULTI_SYLL_PHRASE_HEAD_MIN, MULTI_SYLL_PHRASE_HEAD_MAX);
        let ps = clamp_page(lay.page_size);
        let reserve = reserved_single_slots(lay);
        let limit0 = if ps - reserve > 1 { ps - reserve } else { 1 };
        let front_limit = min_of(limit0, if has_exact { exact_head_bounds(sc).1 as int } else { MULTI_SYLL_PHRASE_HEAD_MAX as int });
        if has_exact {
            exact_layout_order(
                ext,
                rows,
                exact,
                he,
                composed,
                hc,
                others,
                singles,
                range_from(n + first.len() + pool.len(), prefix.len() as int),
                front_limit,
                ps,
                reserve,
                sc == 2 && !lay.composing_phrase,
            )
        } else {
            composed_layout_order(ext, composed, hc, others, singles, front_limit, ps, reserve)
        }
    }
}

fn push_range(out: &mut Vec<usize>, start: usize, len: usize)
    requires
        start + len <= usize::MAX,
    ensures
        final(out)@ == old(out)@ + range_from(start as int, len as int),
{
    let ghost base = out@;
    let mut k: usize = 0;
    while k < len
        invariant
            k <= len,
            start + len <= usize::MAX,
            out@ == base + range_from(start as int, k as int),
        decreases len - k,
    {
        out.push(start + k);
        k += 1;
        assert(out@ =~= base + range_from(start as int, k as int));
    }
}

fn subrange_vec(v: &Vec<usize>, lo: usize, hi: usize) -> (r: Vec<usize>)
    requires
        lo <= hi <= v.len(),
    ensures
        r@ == v@.subrange(lo as int, hi as int),
{
    let mut out: Vec<usize> = Vec::new();
    let mut i = lo;
    while i < hi
        invariant
            lo <= i <= hi <= v.len(),
            out@ == v@.subrange(lo as int, i as int),
        decreases hi - i,
    {
        out.push(v[i]);
        i += 1;
        assert(out@ =~= v@.subrange(lo as int, i as int));
    }
    out
}

fn first_strong_exec(et: &Vec<usize>, rows: &Vec<PhraseHeadRow>) -> (r: Option<usize>)
    requires
        forall|k: int| 0 <= k < et@.len() ==> #[trigger] et@[k] < rows.len(),
    ensures
        match r {
            Some(k) => first_strong_from(et@, rows@, 0) == Some(k as int) && k < et.len(),
            None => first_strong_from(et@, rows@, 0) is None,
        },
{
    let mut k: usize = 0;
    while k < et.len()
        invariant
            k <= et.len(),
            forall|i: int| 0 <= i < et@.len() ==> #[trigger] et@[i] < rows.len(),
            first_strong_from(et@, rows@, k as int) == first_strong_from(et@, rows@, 0),
        decreases et.len() - k,
    {
        if rows[et[k]].strong_exact {
            return Some(k);
        }
        k += 1;
    }
    None
}

fn front_fill_exec(
    out: &mut Vec<usize>,
    eh: &mut Vec<usize>,
    et: &mut Vec<usize>,
    pr: &mut Vec<usize>,
    ext: &Vec<String>,
    rows: &Vec<PhraseHeadRow>,
    count: usize,
)
    requires
        rows.len() <= ext.len(),
        forall|k: int| 0 <= k < old(out)@.len() ==> #[trigger] old(out)@[k] < ext.len(),
        forall|k: int| 0 <= k < old(eh)@.len() ==> #[trigger] old(eh)@[k] < rows.len(),
        forall|k: int| 0 <= k < old(et)@.len() ==> #[trigger] old(et)@[k] < rows.len(),
        forall|k: int| 0 <= k < old(pr)@.len() ==> #[trigger] old(pr)@[k] < ext.len(),
    ensures
        (final(out)@, final(eh)@, final(et)@, final(pr)@) == front_fill(
            strs_view(ext@),
            rows@,
            old(out)@,
            old(eh)@,
            old(et)@,
            old(pr)@,
            count as nat,
        ),
        forall|k: int| 0 <= k < final(out)@.len() ==> #[trigger] final(out)@[k] < ext.len(),
        forall|k: int| 0 <= k < final(eh)@.len() ==> #[trigger] final(eh)@[k] < rows.len(),
        forall|k: int| 0 <= k < final(et)@.len() ==> #[trigger] final(et)@[k] < rows.len(),
        forall|k: int| 0 <= k < final(pr)@.len() ==> #[trigger] final(pr)@[k] < ext.len(),
{
    let ghost ev = strs_view(ext@);
    let ghost target = front_fill(ev, rows@, out@, eh@, et@, pr@, count as nat);
    let mut count = count;
    while count > 0
        invariant
            ev == strs_view(ext@),
            rows.len() <= ext.len(),
            forall|k: int| 0 <= k < out@.len() ==> #[trigger] out@[k] < ext.len(),
            forall|k: int| 0 <= k < eh@.len() ==> #[trigger] eh@[k] < rows.len(),
            forall|k: int| 0 <= k < et@.len() ==> #[trigger] et@[k] < rows.len(),
            forall|k: int| 0 <= k < pr@.len() ==> #[trigger] pr@[k] < ext.len(),
            front_fill(ev, rows@, out@, eh@, et@, pr@, count as nat) == target,
        ensures
            (out@, eh@, et@, pr@) == target,
        decreases count,
    {
        if eh.len() > 0 {
            let ghost before = eh@;
            let x = eh.remove(0);
            assert(eh@ =~= before.drop_first());
            push_unique_exec(out, ext, x);
        } else {
            match first_strong_exec(et, rows) {
                Some(k) => {
                    let x = et.remove(k);
                    push_unique_exec(out, ext, x);
                },
                None => {
                    if pr.len() > 0 {
                        let ghost before = pr@;
                        let x = pr.remove(0);
                        assert(pr@ =~= before.drop_first());
                        push_unique_exec(out, ext, x);
                    } else {
                        break;
                    }
                },
            }
        }
        count -= 1;
    }
}

fn fill_slots_exec(out: &mut Vec<usize>, ext: &Vec<String>, singles: &Vec<usize>, si: usize, ps: usize, reserve: usize) -> (r: usize)
    requires
        0 < ps,
        reserve < ps,
        si <= singles.len(),
        forall|k: int| 0 <= k < singles@.len() ==> #[trigger] singles@[k] < ext.len(),
        forall|k: int| 0 <= k < old(out)@.len() ==> #[trigger] old(out)@[k] < ext.len(),
    ensures
        (final(out)@, r as int) == fill_slots(strs_view(ext@), old(out)@, singles@, si as int, ps as int, reserve as int),
        si <= r <= singles.len(),
        forall|k: int| 0 <= k < final(out)@.len() ==> #[trigger] final(out)@[k] < ext.len(),
{
    let ghost ev = strs_view(ext@);
    let ghost goal = fill_slots(ev, out@, singles@, si as int, ps as int, reserve as int);
    let mut i = si;
    while i < singles.len() && (out.len() < ps || out.len() % ps >= ps - reserve)
        invariant
            si <= i <= singles.len(),
            0 < ps,
            reserve < ps,
            ev == strs_view(ext@),
            forall|k: int| 0 <= k < singles@.len() ==> #[trigger] singles@[k] < ext.len(),
            forall|k: int| 0 <= k < out@.len() ==> #[trigger] out@[k] < ext.len(),
            fill_slots(ev, out@, singles@, i as int, ps as int, reserve as int) == goal,
        decreases singles.len() - i,
    {
        push_unique_exec(out, ext, singles[i]);
        i += 1;
    }
    i
}

fn spread_singles_exec(out: &mut Vec<usize>, ext: &Vec<String>, rest: &Vec<usize>, singles: &Vec<usize>, ps: usize, reserve: usize)
    requires
        0 < ps,
        reserve < ps,
        forall|k: int| 0 <= k < rest@.len() ==> #[trigger] rest@[k] < ext.len(),
        forall|k: int| 0 <= k < singles@.len() ==> #[trigger] singles@[k] < ext.len(),
        forall|k: int| 0 <= k < old(out)@.len() ==> #[trigger] old(out)@[k] < ext.len(),
    ensures
        final(out)@ == spread_singles(strs_view(ext@), old(out)@, rest@, singles@, ps as int, reserve as int),
        forall|k: int| 0 <= k < final(out)@.len() ==> #[trigger] final(out)@[k] < ext.len(),
{
    let ghost ev = strs_view(ext@);
    let ghost start = out@;
    let mut si: usize = 0;
    let mut i: usize = 0;
    while i < rest.len()
        invariant
            i <= rest.len(),
            si <= singles.len(),
            0 < ps,
            reserve < ps,
            ev == strs_view(ext@),
            forall|k: int| 0 <= k < rest@.len() ==> #[trigger] rest@[k] < ext.len(),
            forall|k: int| 0 <= k < singles@.len() ==> #[trigger] singles@[k] < ext.len(),
            forall|k: int| 0 <= k < out@.len() ==> #[trigger] out@[k] < ext.len(),
            (out@, si as int) == interleave(ev, start, rest@.take(i as int), singles@, ps as int, reserve as int),
        decreases rest.len() - i,
    {
        proof {
            assert(rest@.take(i + 1).drop_last() =~= rest@.take(i as int));
            assert(rest@.take(i + 1).last() == rest@[i as int]);
        }
        si = fill_slots_exec(out, ext, singles, si, ps, reserve);
        push_unique_exec(out, ext, rest[i]);
        i += 1;
    }
    assert(rest@.take(rest.len() as int) =~= rest@);
    let left = subrange_vec(singles, si, singles.len());
    assert(left@ =~= singles@.skip(si as int));
    push_all_exec(out, ext, &left);
}

fn exact_layout(
    ext: &Vec<String>,
    rows: &Vec<PhraseHeadRow>,
    exact: &Vec<usize>,
    he: usize,
    composed: &Vec<usize>,
    hc: usize,
    others: &Vec<usize>,
    singles: &Vec<usize>,
    prefix_pos: &Vec<usize>,
    front_limit: usize,
    ps: usize,
    reserve: usize,
    fill: bool,
) -> (r: Vec<usize>)
    requires
        0 < ps,
        reserve < ps,
        rows.len() <= ext.len(),
        he <= exact.len(),
        hc <= composed.len(),
        forall|k: int| 0 <= k < exact@.len() ==> #[trigger] exact@[k] < rows.len(),
        forall|k: int| 0 <= k < composed@.len() ==> #[trigger] composed@[k] < ext.len(),
        forall|k: int| 0 <= k < others@.len() ==> #[trigger] others@[k] < ext.len(),
        forall|k: int| 0 <= k < singles@.len() ==> #[trigger] singles@[k] < ext.len(),
        forall|k: int| 0 <= k < prefix_pos@.len() ==> #[trigger] prefix_pos@[k] < ext.len(),
    ensures
        r@ == exact_layout_order(
            strs_view(ext@),
            rows@,
            exact@,
            he as int,
            composed@,
            hc as int,
            others@,
            singles@,
            prefix_pos@,
            front_limit as int,
            ps as int,
            reserve as int,
            fill,
        ),
{
    let mut out: Vec<usize> = Vec::new();
    let ef = if he < front_limit { he } else { front_limit };
    let front = subrange_vec(exact, 0, ef);
    assert(front@ =~= exact@.take(ef as int));
    push_all_exec(&mut out, ext, &front);
    let room = if front_limit > ef { front_limit - ef } else { 0 };
    let pf = if prefix_pos.len() < room { prefix_pos.len() } else { room };
    let pfront = subrange_vec(prefix_pos, 0, pf);
    assert(pfront@ =~= prefix_pos@.take(pf as int));
    push_all_exec(&mut out, ext, &pfront);
    let mut eh = subrange_vec(exact, ef, he);
    let mut et = subrange_vec(exact, he, exact.len());
    assert(et@ =~= exact@.skip(he as int));
    let mut pr = subrange_vec(prefix_pos, pf, prefix_pos.len());
    assert(pr@ =~= prefix_pos@.skip(pf as int));
    assert(forall|k: int| 0 <= k < eh@.len() ==> #[trigger] eh@[k] == exact@[ef + k]);
    assert(forall|k: int| 0 <= k < et@.len() ==> #[trigger] et@[k] == exact@[he + k]);
    assert(forall|k: int| 0 <= k < pr@.len() ==> #[trigger] pr@[k] == prefix_pos@[pf + k]);
    let page_room = ps - reserve;
    if fill {
        let count: usize = if page_room > out.len() { page_room - out.len() } else { 0 };
        front_fill_exec(&mut out, &mut eh, &mut et, &mut pr, ext, rows, count);
    }
    let mut chead = subrange_vec(composed, 0, hc);
    assert(chead@ =~= composed@.take(hc as int));
    let mut ctail = subrange_vec(composed, hc, composed.len());
    assert(ctail@ =~= composed@.skip(hc as int));
    let mut rest_others = subrange_vec(others, 0, others.len());
    assert(rest_others@ =~= others@);
    let ghost parts = (eh@, et@, pr@);
    let mut rest = eh;
    rest.append(&mut et);
    rest.append(&mut pr);
    rest.append(&mut chead);
    rest.append(&mut ctail);
    rest.append(&mut rest_others);
    assert(rest@ == parts.0 + parts.1 + parts.2 + composed@.take(hc as int) + composed@.skip(hc as int) + others@);
    assert forall|k: int| 0 <= k < rest@.len() implies #[trigger] rest@[k] < ext.len() by {
        assert(rest@[k] < ext.len());
    }
    spread_singles_exec(&mut out, ext, &rest, singles, ps, reserve);
    out
}

fn composed_layout(
    ext: &Vec<String>,
    composed: &Vec<usize>,
    hc: usize,
    others: &Vec<usize>,
    singles: &Vec<usize>,
    front_limit: usize,
    ps: usize,
    reserve: usize,
) -> (r: Vec<usize>)
    requires
        0 < ps,
        reserve < ps,
        hc <= composed.len(),
        forall|k: int| 0 <= k < composed@.len() ==> #[trigger] composed@[k] < ext.len(),
        forall|k: int| 0 <= k < others@.len() ==> #[trigger] others@[k] < ext.len(),
        forall|k: int| 0 <= k < singles@.len() ==> #[trigger] singles@[k] < ext.len(),
    ensures
        r@ == composed_layout_order(
            strs_view(ext@),
            composed@,
            hc as int,
            others@,
            singles@,
            front_limit as int,
            ps as int,
            reserve as int,
        ),
{
    let mut out: Vec<usize> = Vec::new();
    let cf = if hc < front_limit { hc } else { front_limit };
    let front = subrange_vec(composed, 0, cf);
    assert(front@ =~= composed@.take(cf as int));
    push_all_exec(&mut out, ext, &front);
    let mut rest = subrange_vec(composed, cf, hc);
    let mut ctail = subrange_vec(composed, hc, composed.len());
    assert(ctail@ =~= composed@.skip(hc as int));
    let mut rest_others = subrange_vec(others, 0, others.len());
    assert(rest_others@ =~= others@);
    rest.append(&mut ctail);
    rest.append(&mut rest_others);
    assert(rest@ == composed@.subrange(cf as int, hc as int) + composed@.skip(hc as int) + others@);
    assert forall|k: int| 0 <= k < rest@.len() implies #[trigger] rest@[k] < ext.len() by {
        assert(rest@[k] < ext.len());
    }
    spread_singles_exec(&mut out, ext, &rest, singles, ps, reserve);
    out
}

/// The ranked candidates by group: exact phrases of the input's length,
/// other phrases of that length, candidates of other lengths, and single
/// characters of the first syllable.
fn partition_rows(phrases: &Vec<String>, rows: &Vec<PhraseHeadRow>, sc: usize) -> (r: (Vec<usize>, Vec<usize>, Vec<usize>, Vec<usize>))
    requires
        rows.len() == phrases.len(),
    ensures
        r.0@ == identity(phrases@.len()).filter(is_exact_multi(strs_view(phrases@), rows@, sc)),
        r.1@ == identity(phrases@.len()).filter(is_composed_multi(strs_view(phrases@), rows@, sc)),
        r.2@ == identity(phrases@.len()).filter(is_other_length(strs_view(phrases@), sc)),
        r.3@ == identity(phrases@.len()).filter(is_ranked_single(strs_view(phrases@), rows@)),
        forall|k: int| 0 <= k < r.0@.len() ==> #[trigger] r.0@[k] < phrases.len(),
        forall|k: int| 0 <= k < r.1@.len() ==> #[trigger] r.1@[k] < phrases.len(),
        forall|k: int| 0 <= k < r.2@.len() ==> #[trigger] r.2@[k] < phrases.len(),
        forall|k: int| 0 <= k < r.3@.len() ==> #[trigger] r.3@[k] < phrases.len(),
{
    let n = phrases.len();
    let ghost ph = strs_view(phrases@);
    let ghost id = identity(n as nat);
    let ghost fe = is_exact_multi(ph, rows@, sc);
    let ghost fc = is_composed_multi(ph, rows@, sc);
    let ghost fo = is_other_length(ph, sc);
    let ghost fs = is_ranked_single(ph, rows@);
    let mut exact: Vec<usize> = Vec::new();
    let mut composed: Vec<usize> = Vec::new();
    let mut others: Vec<usize> = Vec::new();
    let mut ranked_singles: Vec<usize> = Vec::new();
    let mut i: usize = 0;
    while i < n
        invariant
            i <= n,
            n == phrases.len(),
            n == rows.len(),
            ph == strs_view(phrases@),
            id == identity(n as nat),
            fe == is_exact_multi(ph, rows@, sc),
            fc == is_composed_multi(ph, rows@, sc),
            fo == is_other_length(ph, sc),
            fs == is_ranked_single(ph, rows@),
            exact@ == id.take(i as int).filter(fe),
            composed@ == id.take(i as int).filter(fc),
            others@ == id.take(i as int).filter(fo),
            ranked_singles@ == id.take(i as int).filter(fs),
            forall|k: int| 0 <= k < exact@.len() ==> #[trigger] exact@[k] < n,
            forall|k: int| 0 <= k < composed@.len() ==> #[trigger] composed@[k] < n,
            forall|k: int| 0 <= k < others@.len() ==> #[trigger] others@[k] < n,
            forall|k: int| 0 <= k < ranked_singles@.len() ==> #[trigger] ranked_singles@[k] < n,
        decreases n - i,
    {
        proof {
            let t = id.take(i as int);
            assert(id.take(i + 1) =~= t.push(i as usize));
            t.lemma_filter_push(i as usize, fe);
            t.lemma_filter_push(i as usize, fc);
            t.lemma_filter_push(i as usize, fo);
            t.lemma_filter_push(i as usize, fs);
        }
        let c = phrase_char_count(phrases[i].as_str());
        assert(c == count_non_ws(ph[i as int]));
        if c == 1 {
            if rows[i].first_syllable_match {
                ranked_singles.push(i);
            }
        } else if c == sc && c >= 2 {
            if rows[i].exact_reading {
                exact.push(i);
            } else {
                composed.push(i);
            }
        } else {
            others.push(i);
        }
        i += 1;
    }
    assert(id.take(n as int) =~= id);
    (exact, composed, others, ranked_singles)
}

fn build_singles(n: usize, nf: usize, np: usize, ranked_singles: &Vec<usize>, layout: PhraseHeadLayout) -> (r: Vec<usize>)
    requires
        n + nf + np <= usize::MAX,
        forall|k: int| 0 <= k < ranked_singles@.len() ==> #[trigger] ranked_singles@[k] < n,
    ensures
        r@ == head_singles(n as int, nf as int, np as int, ranked_singles@, layout),
        forall|k: int| 0 <= k < r@.len() ==> #[trigger] r@[k] < n + nf + np,
{
    let take: usize = if layout.composing_phrase {
        4
    } else if layout.long_input {
        1
    } else {
        2
    };
    let mut singles: Vec<usize> = Vec::new();
    push_range(&mut singles, n, if take < nf { take } else { nf });
    let ghost part1 = singles@;
    let mut k: usize = 0;
    while k < ranked_singles.len()
        invariant
            k <= ranked_singles.len(),
            singles@ == part1 + ranked_singles@.take(k as int),
        decreases ranked_singles.len() - k,
    {
        singles.push(ranked_singles[k]);
        k += 1;
        assert(singles@ =~= part1 + ranked_singles@.take(k as int));
    }
    assert(ranked_singles@.take(ranked_singles.len() as int) =~= ranked_singles@);
    if !layout.long_input {
        push_range(&mut singles, n + nf, np);
    }
    assert(singles@ =~= head_singles(n as int, nf as int, np as int, ranked_singles@, layout));
    singles
}

/// Lays out a complete multi-syllable full-pinyin input: a head of whole
/// phrases of the input's length (those the lexicon lists under the whole
/// input first, when there are any), then the rest, with the single
/// characters of the first syllable on the rest of the first page and on
/// the reserved last slots of each later page (three while composing a
/// phrase, else one); for two syllables the first page is
/// filled with strong exact phrases and prefix phrases before the singles.
/// `rows` describes each ranked candidate; `first_singles` are the single
/// characters that the lexicon ranks for the first syllable,
/// `pool_singles` its pool of single characters, and `prefix_support`
/// the phrases that continue the input's prefix. Gives positions into the
/// ranked list followed by those three lists; a phrase appears once, at
/// its first place.
pub fn apply_multi_syllable_phrase_head_then_first_syllable_singles(
    phrases: &Vec<String>,
    rows: &Vec<PhraseHeadRow>,
    first_singles: &Vec<String>,
    pool_singles: &Vec<String>,
    prefix_support: &Vec<String>,
    layout: PhraseHeadLayout,
) -> (r: Vec<usize>)
    requires
        rows.len() == phrases.len(),
        phrases.len() + first_singles.len() + pool_singles.len() + prefix_support.len() <= usize::MAX,
    ensures
        r@ == phrase_head_order(
            strs_view(phrases@),
            rows@,
            strs_view(first_singles@),
            strs_view(pool_singles@),
            strs_view(prefix_support@),
            layout,
        ),
{
    if !layout.has_first_syllable {
        return Vec::new();
    }
    let ghost ph = strs_view(phrases@);
    let n = phrases.len();
    let nf = first_singles.len();
    let np = pool_singles.len();
    let nx = prefix_support.len();
    let mut ext: Vec<String> = Vec::new();
    append_strings(&mut ext, phrases);
    append_strings(&mut ext, first_singles);
    append_strings(&mut ext, pool_singles);
    append_strings(&mut ext, prefix_support);
    assert(strs_view(ext@) =~= ph + strs_view(first_singles@) + strs_view(pool_singles@) + strs_view(prefix_support@));
    let sc = layout.syllable_count;
    let (exact, composed, others, ranked_singles) = partition_rows(phrases, rows, sc);
    let (emin, emax) = if sc == 3 {
        (THREE_CHAR_CONFIDENT_FRONT_MIN, THREE_CHAR_CONFIDENT_FRONT_MAX)
    } else {
        (MULTI_SYLL_PHRASE_HEAD_MIN, MULTI_SYLL_PHRASE_HEAD_MAX)
    };
    let he = head_len_exec(&exact, rows, emin, emax);
    let hc = head_len_exec(&composed, rows, MULTI_SYLL_PHRASE_HEAD_MIN, MULTI_SYLL_PHRASE_HEAD_MAX);
    let singles = build_singles(n, nf, np, &ranked_singles, layout);
    let ps: usize = if layout.page_size < 3 {
        3
    } else if layout.page_size > MAX_PAGE_SIZE {
        MAX_PAGE_SIZE
    } else {
        layout.page_size
    };
    let reserve: usize = if layout.composing_phrase {
        if 3 < ps - 1 { 3 } else { ps - 1 }
    } else {
        if 1 < ps - 1 { 1 } else { ps - 1 }
    };
    let limit0: usize = if ps - reserve > 1 { ps - reserve } else { 1 };
    let cap: usize = if exact.len() > 0 { emax } else { MULTI_SYLL_PHRASE_HEAD_MAX };
    let front_limit: usize = if limit0 < cap { limit0 } else { cap };
    if exact.len() > 0 {
        let mut prefix_pos: Vec<usize> = Vec::new();
        push_range(&mut prefix_pos, n + nf + np, nx);
        assert(prefix_pos@ =~= range_from((n + nf + np) as int, nx as int));
        exact_layout(
            &ext,
            rows,
            &exact,
            he,
            &composed,
            hc,
            &others,
            &singles,
            &prefix_pos,
            front_limit,
            ps,
            reserve,
            sc == 2 && !layout.composing_phrase,
        )
    } else {
        composed_layout(&ext, &composed, hc, &others, &singles, front_limit, ps, reserve)
    }
}

/// No two entries of `out` hold the same phrase.
pub open spec fn distinct_phrases(ext: Seq<Seq<char>>, out: Seq<usize>) -> bool {
    forall|i: int, j: int| 0 <= i < j < out.len() ==> ext[#[trigger] out[i] as int] != ext[#[trigger] out[j] as int]
}

proof fn lemma_push_unique_distinct(ext: Seq<Seq<char>>, o: Seq<usize>, x: usize)
    requires
        distinct_phrases(ext, o),
    ensures
        distinct_phrases(ext, push_unique(ext, o, x)),
{
    if !(exists|k: int| 0 <= k < o.len() && ext[#[trigger] o[k] as int] == ext[x as int]) {
        let r = o.push(x);
        assert forall|i: int, j: int| 0 <= i < j < r.len() implies ext[#[trigger] r[i] as int] != ext[#[trigger] r[j] as int] by {
            if j == o.len() {
                assert(r[i] == o[i]);
            } else {
                assert(r[i] == o[i] && r[j] == o[j]);
            }
        }
    }
}

proof fn lemma_push_all_distinct(ext: Seq<Seq<char>>, out: Seq<usize>, s: Seq<usize>)
    requires
        distinct_phrases(ext, out),
    ensures
        distinct_phrases(ext, push_all(ext, out, s)),
    decreases s.len(),
{
    if s.len() > 0 {
        lemma_push_all_distinct(ext, out, s.drop_last());
        lemma_push_unique_distinct(ext, push_all(ext, out, s.drop_last()), s.last());
    }
}

proof fn lemma_front_fill_distinct(
    ext: Seq<Seq<char>>,
    rows: Seq<PhraseHeadRow>,
    out: Seq<usize>,
    eh: Seq<usize>,
    et: Seq<usize>,
    pr: Seq<usize>,
    count: nat,
)
    requires
        distinct_phrases(ext, out),
    ensures
        distinct_phrases(ext, front_fill(ext, rows, out, eh, et, pr, count).0),
    decreases count,
{
    if count > 0 {
        if eh.len() > 0 {
            lemma_push_unique_distinct(ext, out, eh[0]);
            lemma_front_fill_distinct(ext, rows, push_unique(ext, out, eh[0]), eh.drop_first(), et, pr, (count - 1) as nat);
        } else {
            match first_strong_from(et, rows, 0) {
                Some(k) => {
                    lemma_push_unique_distinct(ext, out, et[k]);
                    lemma_front_fill_distinct(ext, rows, push_unique(ext, out, et[k]), eh, et.remove(k), pr, (count - 1) as nat);
                },
                None => {
                    if pr.len() > 0 {
                        lemma_push_unique_distinct(ext, out, pr[0]);
                        lemma_front_fill_distinct(ext, rows, push_unique(ext, out, pr[0]), eh, et, pr.drop_first(), (count - 1) as nat);
                    }
                },
            }
        }
    }
}

proof fn lemma_fill_slots_distinct(ext: Seq<Seq<char>>, out: Seq<usize>, singles: Seq<usize>, si: int, ps: int, reserve: int)
    requires
        distinct_phrases(ext, out),
    ensures
        distinct_phrases(ext, fill_slots(ext, out, singles, si, ps, reserve).0),
    decreases singles.len() - si,
{
    if 0 <= si < singles.len() && single_slot(out.len() as int, ps, reserve) {
        lemma_push_unique_distinct(ext, out, singles[si]);
        lemma_fill_slots_distinct(ext, push_unique(ext, out, singles[si]), singles, si + 1, ps, reserve);
    }
}

proof fn lemma_interleave_distinct(ext: Seq<Seq<char>>, out: Seq<usize>, items: Seq<usize>, singles: Seq<usize>, ps: int, reserve: int)
    requires
        distinct_phrases(ext, out),
    ensures
        distinct_phrases(ext, interleave(ext, out, items, singles, ps, reserve).0),
    decreases items.len(),
{
    if items.len() > 0 {
        lemma_interleave_distinct(ext, out, items.drop_last(), singles, ps, reserve);
        let p = interleave(ext, out, items.drop_last(), singles, ps, reserve);
        lemma_fill_slots_distinct(ext, p.0, singles, p.1, ps, reserve);
        let f = fill_slots(ext, p.0, singles, p.1, ps, reserve);
        lemma_push_unique_distinct(ext, f.0, items.last());
    }
}

proof fn lemma_spread_distinct(ext: Seq<Seq<char>>, out: Seq<usize>, rest: Seq<usize>, singles: Seq<usize>, ps: int, reserve: int)
    requires
        distinct_phrases(ext, out),
    ensures
        distinct_phrases(ext, spread_singles(ext, out, rest, singles, ps, reserve)),
{
    lemma_interleave_distinct(ext, out, rest, singles, ps, reserve);
    let p = interleave(ext, out, rest, singles, ps, reserve);
    lemma_push_all_distinct(ext, p.0, singles.skip(p.1));
}

/// The layout lists each phrase at most once.
pub proof fn lemma_phrase_head_order_distinct(
    ph: Seq<Seq<char>>,
    rows: Seq<PhraseHeadRow>,
    first: Seq<Seq<char>>,
    pool: Seq<Seq<char>>,
    prefix: Seq<Seq<char>>,
    lay: PhraseHeadLayout,
)
    ensures
        distinct_phrases(ph + first + pool + prefix, phrase_head_order(ph, rows, first, pool, prefix, lay)),
{
    let ext = ph + first + pool + prefix;
    let r = phrase_head_order(ph, rows, first, pool, prefix, lay);
    if lay.has_first_syllable {
        let n = ph.len() as int;
        let id = identity(ph.len());
        let sc = lay.syllable_count;
        let exact = id.filter(is_exact_multi(ph, rows, sc));
        let composed = id.filter(is_composed_multi(ph, rows, sc));
        let others = id.filter(is_other_length(ph, sc));
        let singles = head_singles(n, first.len() as int, pool.len() as int, id.filter(is_ranked_single(ph, rows)), lay);
        let he = head_len(exact, rows, exact_head_bounds(sc).0, exact_head_bounds(sc).1);
        let hc = head_len(composed, rows, MULTI_SYLL_PHRASE_HEAD_MIN, MULTI_SYLL_PHRASE_HEAD_MAX);
        let ps = clamp_page(lay.page_size);
        let reserve = reserved_single_slots(lay);
        let limit0 = if ps - reserve > 1 { ps - reserve } else { 1 };
        let e: Seq<usize> = Seq::empty();
        if exact.len() > 0 {
            let front_limit = min_of(limit0, exact_head_bounds(sc).1 as int);
            let prefix_pos = range_from(n + first.len() + pool.len(), prefix.len() as int);
            let ef = min_of(he, front_limit);
            lemma_push_all_distinct(ext, e, exact.take(ef));
            let out1 = push_all(ext, e, exact.take(ef));
            let pf = min_of(prefix_pos.len() as int, if front_limit > ef { front_limit - ef } else { 0 });
            lemma_push_all_distinct(ext, out1, prefix_pos.take(pf));
            let out2 = push_all(ext, out1, prefix_pos.take(pf));
            let eh = exact.subrange(ef, he);
            let et = exact.skip(he);
            let pr = prefix_pos.skip(pf);
            let fill = sc == 2 && !lay.composing_phrase;
            let cnt = (if ps - reserve > out2.len() { ps - reserve - out2.len() } else { 0 }) as nat;
            let st = if fill { front_fill(ext, rows, out2, eh, et, pr, cnt) } else { (out2, eh, et, pr) };
            if fill {
                lemma_front_fill_distinct(ext, rows, out2, eh, et, pr, cnt);
            }
            let rest = st.1 + st.2 + st.3 + composed.take(hc) + composed.skip(hc) + others;
            lemma_spread_distinct(ext, st.0, rest, singles, ps, reserve);
        } else {
            let front_limit = min_of(limit0, MULTI_SYLL_PHRASE_HEAD_MAX as int);
            let cf = min_of(hc, front_limit);
            lemma_push_all_distinct(ext, e, composed.take(cf));
            let o1 = push_all(ext, e, composed.take(cf));
            let rest = composed.subrange(cf, hc) + composed.skip(hc) + others;
            lemma_spread_distinct(ext, o1, rest, singles, ps, reserve);
        }
    }
}

proof fn lemma_push_all_grows(ext: Seq<Seq<char>>, out: Seq<usize>, s: Seq<usize>)
    ensures
        out.len() <= push_all(ext, out, s).len() <= out.len() + s.len(),
        push_all(ext, out, s).take(out.len() as int) == out,
    decreases s.len(),
{
    if s.len() == 0 {
        assert(out.take(out.len() as int) =~= out);
    } else {
        lemma_push_all_grows(ext, out, s.drop_last());
        let o = push_all(ext, out, s.drop_last());
        let r = push_unique(ext, o, s.last());
        assert(r.take(out.len() as int) =~= o.take(out.len() as int));
    }
}

proof fn lemma_push_all_append(ext: Seq<Seq<char>>, out: Seq<usize>, a: Seq<usize>, b: Seq<usize>)
    ensures
        push_all(ext, out, a + b) == push_all(ext, push_all(ext, out, a), b),
    decreases b.len(),
{
    if b.len() == 0 {
        assert(a + b =~= a);
    } else {
        lemma_push_all_append(ext, out, a, b.drop_last());
        assert((a + b).drop_last() =~= a + b.drop_last());
        assert((a + b).last() == b.last());
    }
}

proof fn lemma_front_fill_grows(
    ext: Seq<Seq<char>>,
    rows: Seq<PhraseHeadRow>,
    out: Seq<usize>,
    eh: Seq<usize>,
    et: Seq<usize>,
    pr: Seq<usize>,
    count: nat,
)
    ensures
        front_fill(ext, rows, out, eh, et, pr, count).0.len() <= out.len() + count,
    decreases count,
{
    if count > 0 {
        if eh.len() > 0 {
            lemma_front_fill_grows(ext, rows, push_unique(ext, out, eh[0]), eh.drop_first(), et, pr, (count - 1) as nat);
        } else {
            match first_strong_from(et, rows, 0) {
                Some(k) => {
                    lemma_front_fill_grows(ext, rows, push_unique(ext, out, et[k]), eh, et.remove(k), pr, (count - 1) as nat);
                },
                None => {
                    if pr.len() > 0 {
                        lemma_front_fill_grows(ext, rows, push_unique(ext, out, pr[0]), eh, et, pr.drop_first(), (count - 1) as nat);
                    }
                },
            }
        }
    }
}

/// After `o`, pushing `singles` and then anything else shows the phrase of
/// the first single at a place no later than `o.len()`.
proof fn lemma_first_single_shown(ext: Seq<Seq<char>>, o: Seq<usize>, singles: Seq<usize>, r: Seq<usize>)
    requires
        singles.len() > 0,
        r.take(push_all(ext, o, singles).len() as int) == push_all(ext, o, singles),
        push_all(ext, o, singles).len() <= r.len(),
    ensures
        exists|i: int| 0 <= i <= o.len() && i < r.len() && ext[#[trigger] r[i] as int] == ext[singles[0] as int],
{
    let first = seq![singles[0]];
    assert(singles =~= first + singles.drop_first());
    lemma_push_all_append(ext, o, first, singles.drop_first());
    let p = push_all(ext, o, first);
    assert(first.drop_last() =~= Seq::<usize>::empty());
    assert(push_all(ext, o, Seq::<usize>::empty()) == o);
    assert(first.last() == singles[0]);
    assert(p == push_unique(ext, o, singles[0]));
    lemma_push_all_grows(ext, p, singles.drop_first());
    let q = push_all(ext, o, singles);
    if exists|k: int| 0 <= k < o.len() && ext[#[trigger] o[k] as int] == ext[singles[0] as int] {
        let k = choose|k: int| 0 <= k < o.len() && ext[#[trigger] o[k] as int] == ext[singles[0] as int];
        assert(q.take(p.len() as int)[k] == p[k]);
        assert(r[k] == q[k]);
    } else {
        let k = o.len() as int;
        assert(p[k] == singles[0]);
        assert(q.take(p.len() as int)[k] == p[k]);
        assert(r[k] == q[k]);
    }
}

proof fn lemma_prefix_trans(a: Seq<usize>, b: Seq<usize>, c: Seq<usize>)
    requires
        a.len() <= b.len() <= c.len(),
        b.take(a.len() as int) == a,
        c.take(b.len() as int) == b,
    ensures
        c.take(a.len() as int) == a,
{
    assert forall|i: int| 0 <= i < a.len() implies c.take(a.len() as int)[i] == a[i] by {
        assert(c.take(b.len() as int)[i] == b[i]);
        assert(b.take(a.len() as int)[i] == a[i]);
    }
    assert(c.take(a.len() as int) =~= a);
}

/// `b` begins with `a`.
pub open spec fn extends(a: Seq<usize>, b: Seq<usize>) -> bool {
    a.len() <= b.len() && b.take(a.len() as int) == a
}

/// The phrase `x` stands in `s` at a place no later than `bound`.
pub open spec fn shown_by(ext: Seq<Seq<char>>, s: Seq<usize>, x: Seq<char>, bound: int) -> bool {
    exists|i: int| 0 <= i <= bound && i < s.len() && ext[#[trigger] s[i] as int] == x
}

proof fn lemma_shown_extends(ext: Seq<Seq<char>>, a: Seq<usize>, b: Seq<usize>, x: Seq<char>, bound: int)
    requires
        shown_by(ext, a, x, bound),
        extends(a, b),
    ensures
        shown_by(ext, b, x, bound),
{
    let i = choose|i: int| 0 <= i <= bound && i < a.len() && ext[#[trigger] a[i] as int] == x;
    assert(b.take(a.len() as int)[i] == a[i]);
    assert(ext[b[i] as int] == x);
}

proof fn lemma_push_unique_extends(ext: Seq<Seq<char>>, o: Seq<usize>, x: usize)
    ensures
        extends(o, push_unique(ext, o, x)),
        shown_by(ext, push_unique(ext, o, x), ext[x as int], o.len() as int),
{
    let r = push_unique(ext, o, x);
    assert(r.take(o.len() as int) =~= o);
    if exists|k: int| 0 <= k < o.len() && ext[#[trigger] o[k] as int] == ext[x as int] {
        let k = choose|k: int| 0 <= k < o.len() && ext[#[trigger] o[k] as int] == ext[x as int];
        assert(ext[r[k] as int] == ext[x as int]);
    } else {
        assert(r[o.len() as int] == x);
    }
}

proof fn lemma_fill_slots_extends(ext: Seq<Seq<char>>, out: Seq<usize>, singles: Seq<usize>, si: int, ps: int, reserve: int)
    ensures
        extends(out, fill_slots(ext, out, singles, si, ps, reserve).0),
        si <= fill_slots(ext, out, singles, si, ps, reserve).1,
        0 <= si < singles.len() && single_slot(out.len() as int, ps, reserve) ==> si < fill_slots(
            ext,
            out,
            singles,
            si,
            ps,
            reserve,
        ).1 && shown_by(ext, fill_slots(ext, out, singles, si, ps, reserve).0, ext[singles[si] as int], out.len() as int),
    decreases singles.len() - si,
{
    if 0 <= si < singles.len() && single_slot(out.len() as int, ps, reserve) {
        let o = push_unique(ext, out, singles[si]);
        lemma_push_unique_extends(ext, out, singles[si]);
        lemma_fill_slots_extends(ext, o, singles, si + 1, ps, reserve);
        let f = fill_slots(ext, o, singles, si + 1, ps, reserve);
        lemma_prefix_trans(out, o, f.0);
        lemma_shown_extends(ext, o, f.0, ext[singles[si] as int], out.len() as int);
    } else {
        assert(out.take(out.len() as int) =~= out);
    }
}

proof fn lemma_interleave_first(ext: Seq<Seq<char>>, out: Seq<usize>, items: Seq<usize>, singles: Seq<usize>, ps: int, reserve: int)
    requires
        items.len() > 0,
        singles.len() > 0,
        out.len() < ps,
    ensures
        extends(out, interleave(ext, out, items, singles, ps, reserve).0),
        shown_by(ext, interleave(ext, out, items, singles, ps, reserve).0, ext[singles[0] as int], out.len() as int),
    decreases items.len(),
{
    let q = interleave(ext, out, items.drop_last(), singles, ps, reserve);
    if items.len() == 1 {
        assert(items.drop_last().len() == 0);
        assert(q == (out, 0int));
        lemma_fill_slots_extends(ext, out, singles, 0, ps, reserve);
    } else {
        lemma_interleave_first(ext, out, items.drop_last(), singles, ps, reserve);
        lemma_fill_slots_extends(ext, q.0, singles, q.1, ps, reserve);
        let f = fill_slots(ext, q.0, singles, q.1, ps, reserve);
        lemma_prefix_trans(out, q.0, f.0);
        lemma_shown_extends(ext, q.0, f.0, ext[singles[0] as int], out.len() as int);
    }
    let f = fill_slots(ext, q.0, singles, q.1, ps, reserve);
    lemma_push_unique_extends(ext, f.0, items.last());
    lemma_prefix_trans(out, f.0, push_unique(ext, f.0, items.last()));
    lemma_shown_extends(ext, f.0, push_unique(ext, f.0, items.last()), ext[singles[0] as int], out.len() as int);
}

/// With the head `out` shorter than a page, the phrase of the first single
/// follows right after it or is already in it.
proof fn lemma_spread_first(ext: Seq<Seq<char>>, out: Seq<usize>, rest: Seq<usize>, singles: Seq<usize>, ps: int, reserve: int)
    requires
        singles.len() > 0,
        out.len() < ps,
    ensures
        shown_by(ext, spread_singles(ext, out, rest, singles, ps, reserve), ext[singles[0] as int], out.len() as int),
{
    let p = interleave(ext, out, rest, singles, ps, reserve);
    let r = spread_singles(ext, out, rest, singles, ps, reserve);
    lemma_push_all_grows(ext, p.0, singles.skip(p.1));
    if rest.len() == 0 {
        assert(p == (out, 0int));
        assert(singles.skip(0) =~= singles);
        assert(r.take(r.len() as int) =~= r);
        lemma_first_single_shown(ext, out, singles, r);
    } else {
        lemma_interleave_first(ext, out, rest, singles, ps, reserve);
        lemma_shown_extends(ext, p.0, r, ext[singles[0] as int], out.len() as int);
    }
}

/// When the layout offers single characters, the phrase of the first one
/// is on the first page.
pub proof fn lemma_first_single_on_first_page(
    ph: Seq<Seq<char>>,
    rows: Seq<PhraseHeadRow>,
    first: Seq<Seq<char>>,
    pool: Seq<Seq<char>>,
    prefix: Seq<Seq<char>>,
    lay: PhraseHeadLayout,
)
    requires
        lay.has_first_syllable,
        head_singles(
            ph.len() as int,
            first.len() as int,
            pool.len() as int,
            identity(ph.len()).filter(is_ranked_single(ph, rows)),
            lay,
        ).len() > 0,
    ensures
        ({
            let ext = ph + first + pool + prefix;
            let r = phrase_head_order(ph, rows, first, pool, prefix, lay);
            let s0 = head_singles(
                ph.len() as int,
                first.len() as int,
                pool.len() as int,
                identity(ph.len()).filter(is_ranked_single(ph, rows)),
                lay,
            )[0];
            exists|i: int| 0 <= i < clamp_page(lay.page_size) && i < r.len() && ext[#[trigger] r[i] as int] == ext[s0 as int]
        }),
{
    let ext = ph + first + pool + prefix;
    let r = phrase_head_order(ph, rows, first, pool, prefix, lay);
    let n = ph.len() as int;
    let id = identity(ph.len());
    let sc = lay.syllable_count;
    let exact = id.filter(is_exact_multi(ph, rows, sc));
    let composed = id.filter(is_composed_multi(ph, rows, sc));
    let others = id.filter(is_other_length(ph, sc));
    let singles = head_singles(n, first.len() as int, pool.len() as int, id.filter(is_ranked_single(ph, rows)), lay);
    let he = head_len(exact, rows, exact_head_bounds(sc).0, exact_head_bounds(sc).1);
    let hc = head_len(composed, rows, MULTI_SYLL_PHRASE_HEAD_MIN, MULTI_SYLL_PHRASE_HEAD_MAX);
    let ps = clamp_page(lay.page_size);
    let reserve = reserved_single_slots(lay);
    let limit0 = if ps - reserve > 1 { ps - reserve } else { 1 };
    let e: Seq<usize> = Seq::empty();
    assert(1 <= reserve <= ps - 1);
    lemma_head_len_bounds(exact, rows, exact_head_bounds(sc).0, exact_head_bounds(sc).1);
    lemma_head_len_bounds(composed, rows, MULTI_SYLL_PHRASE_HEAD_MIN, MULTI_SYLL_PHRASE_HEAD_MAX);
    if exact.len() > 0 {
        let front_limit = min_of(limit0, exact_head_bounds(sc).1 as int);
        let prefix_pos = range_from(n + first.len() + pool.len(), prefix.len() as int);
        let ef = min_of(he, front_limit);
        lemma_push_all_grows(ext, e, exact.take(ef));
        let out1 = push_all(ext, e, exact.take(ef));
        let pf = min_of(prefix_pos.len() as int, if front_limit > ef { front_limit - ef } else { 0 });
        lemma_push_all_grows(ext, out1, prefix_pos.take(pf));
        let out2 = push_all(ext, out1, prefix_pos.take(pf));
        let eh = exact.subrange(ef, he);
        let et = exact.skip(he);
        let pr = prefix_pos.skip(pf);
        let fill = sc == 2 && !lay.composing_phrase;
        let cnt = (if ps - reserve > out2.len() { ps - reserve - out2.len() } else { 0 }) as nat;
        let st = if fill { front_fill(ext, rows, out2, eh, et, pr, cnt) } else { (out2, eh, et, pr) };
        if fill {
            lemma_front_fill_grows(ext, rows, out2, eh, et, pr, cnt);
        }
        assert(st.0.len() <= ps - reserve);
        let rest = st.1 + st.2 + st.3 + composed.take(hc) + composed.skip(hc) + others;
        lemma_spread_first(ext, st.0, rest, singles, ps, reserve);
    } else {
        let front_limit = min_of(limit0, MULTI_SYLL_PHRASE_HEAD_MAX as int);
        let cf = min_of(hc, front_limit);
        lemma_push_all_grows(ext, e, composed.take(cf));
        let o1 = push_all(ext, e, composed.take(cf));
        let rest = composed.subrange(cf, hc) + composed.skip(hc) + others;
        lemma_spread_first(ext, o1, rest, singles, ps, reserve);
    }
}

/// The phrase `x` is that of one of `singles`.
pub open spec fn is_single(ext: Seq<Seq<char>>, singles: Seq<usize>, x: Seq<char>) -> bool {
    exists|k: int| 0 <= k < singles.len() && ext[#[trigger] singles[k] as int] == x
}

/// Every single's phrase stands in `r` before `p`.
pub open spec fn singles_shown_before(ext: Seq<Seq<char>>, r: Seq<usize>, singles: Seq<usize>, p: int) -> bool {
    forall|k: int| 0 <= k < singles.len() ==> shown_by(ext, r, ext[#[trigger] singles[k] as int], p - 1)
}

/// From `start` on, each single slot of `r` holds a single, unless every
/// single is already shown before it.
pub open spec fn slots_hold_singles(ext: Seq<Seq<char>>, r: Seq<usize>, singles: Seq<usize>, start: int, ps: int, reserve: int) -> bool {
    forall|p: int|
        start <= p < r.len() && #[trigger] single_slot(p, ps, reserve) ==> is_single(ext, singles, ext[r[p] as int])
            || singles_shown_before(ext, r, singles, p)
}

/// The singles before `si` are all shown in `o`.
pub open spec fn first_singles_shown(ext: Seq<Seq<char>>, o: Seq<usize>, singles: Seq<usize>, si: int) -> bool {
    forall|k: int| 0 <= k < si ==> shown_by(ext, o, ext[#[trigger] singles[k] as int], o.len() - 1)
}

proof fn lemma_slots_extend_push(
    ext: Seq<Seq<char>>,
    o: Seq<usize>,
    x: usize,
    singles: Seq<usize>,
    start: int,
    ps: int,
    reserve: int,
)
    requires
        0 <= start <= o.len(),
        slots_hold_singles(ext, o, singles, start, ps, reserve),
        single_slot(o.len() as int, ps, reserve) ==> is_single(ext, singles, ext[x as int]) || singles_shown_before(
            ext,
            o,
            singles,
            o.len() as int,
        ),
    ensures
        slots_hold_singles(ext, push_unique(ext, o, x), singles, start, ps, reserve),
{
    let o2 = push_unique(ext, o, x);
    lemma_push_unique_extends(ext, o, x);
    assert forall|p: int|
        start <= p < o2.len() && #[trigger] single_slot(p, ps, reserve) implies is_single(ext, singles, ext[o2[p] as int])
            || singles_shown_before(ext, o2, singles, p) by {
        let y = if p < o.len() { o[p] } else { x };
        if p < o.len() {
            assert(o2.take(o.len() as int)[p] == o2[p]);
            assert(o2[p] == y);
            assert(is_single(ext, singles, ext[o[p] as int]) || singles_shown_before(ext, o, singles, p));
        } else {
            assert(p == o.len());
            assert(o2[p] == x);
        }
        if is_single(ext, singles, ext[y as int]) {
            let k = choose|k: int| 0 <= k < singles.len() && ext[#[trigger] singles[k] as int] == ext[y as int];
            assert(ext[singles[k] as int] == ext[o2[p] as int]);
        } else {
            assert(singles_shown_before(ext, o, singles, p));
            assert forall|k: int| 0 <= k < singles.len() implies shown_by(ext, o2, ext[#[trigger] singles[k] as int], p - 1) by {
                assert(shown_by(ext, o, ext[singles[k] as int], p - 1));
                lemma_shown_extends(ext, o, o2, ext[singles[k] as int], p - 1);
            }
        }
    }
}

proof fn lemma_first_singles_extend(ext: Seq<Seq<char>>, o: Seq<usize>, o2: Seq<usize>, singles: Seq<usize>, si: int)
    requires
        first_singles_shown(ext, o, singles, si),
        extends(o, o2),
    ensures
        first_singles_shown(ext, o2, singles, si),
{
    assert forall|k: int| 0 <= k < si implies shown_by(ext, o2, ext[#[trigger] singles[k] as int], o2.len() - 1) by {
        lemma_shown_extends(ext, o, o2, ext[singles[k] as int], o.len() - 1);
        let i = choose|i: int| 0 <= i <= o.len() - 1 && i < o2.len() && ext[#[trigger] o2[i] as int] == ext[singles[k] as int];
        assert(0 <= i <= o2.len() - 1);
    }
}

proof fn lemma_fill_slots_hold(
    ext: Seq<Seq<char>>,
    o: Seq<usize>,
    singles: Seq<usize>,
    si: int,
    start: int,
    ps: int,
    reserve: int,
)
    requires
        0 <= si <= singles.len(),
        0 <= start <= o.len(),
        slots_hold_singles(ext, o, singles, start, ps, reserve),
        first_singles_shown(ext, o, singles, si),
    ensures
        ({
            let f = fill_slots(ext, o, singles, si, ps, reserve);
            &&& slots_hold_singles(ext, f.0, singles, start, ps, reserve)
            &&& first_singles_shown(ext, f.0, singles, f.1)
            &&& si <= f.1 <= singles.len()
            &&& (f.1 == singles.len() || !single_slot(f.0.len() as int, ps, reserve))
        }),
    decreases singles.len() - si,
{
    if si < singles.len() && single_slot(o.len() as int, ps, reserve) {
        let x = singles[si];
        let o2 = push_unique(ext, o, x);
        assert(is_single(ext, singles, ext[x as int])) by {
            assert(ext[singles[si] as int] == ext[x as int]);
        }
        lemma_slots_extend_push(ext, o, x, singles, start, ps, reserve);
        lemma_push_unique_extends(ext, o, x);
        lemma_first_singles_extend(ext, o, o2, singles, si);
        assert forall|k: int| 0 <= k < si + 1 implies shown_by(ext, o2, ext[#[trigger] singles[k] as int], o2.len() - 1) by {
            if k == si {
                let i = choose|i: int| 0 <= i <= o.len() && i < o2.len() && ext[#[trigger] o2[i] as int] == ext[x as int];
                assert(0 <= i <= o2.len() - 1);
            }
        }
        lemma_fill_slots_hold(ext, o2, singles, si + 1, start, ps, reserve);
    }
}

proof fn lemma_interleave_hold(
    ext: Seq<Seq<char>>,
    out: Seq<usize>,
    items: Seq<usize>,
    singles: Seq<usize>,
    ps: int,
    reserve: int,
)
    ensures
        ({
            let q = interleave(ext, out, items, singles, ps, reserve);
            &&& out.len() <= q.0.len()
            &&& slots_hold_singles(ext, q.0, singles, out.len() as int, ps, reserve)
            &&& first_singles_shown(ext, q.0, singles, q.1)
            &&& 0 <= q.1 <= singles.len()
        }),
    decreases items.len(),
{
    if items.len() == 0 {
    } else {
        lemma_interleave_hold(ext, out, items.drop_last(), singles, ps, reserve);
        let q = interleave(ext, out, items.drop_last(), singles, ps, reserve);
        lemma_fill_slots_hold(ext, q.0, singles, q.1, out.len() as int, ps, reserve);
        lemma_fill_slots_extends(ext, q.0, singles, q.1, ps, reserve);
        let f = fill_slots(ext, q.0, singles, q.1, ps, reserve);
        let x = items.last();
        if single_slot(f.0.len() as int, ps, reserve) {
            assert(f.1 == singles.len());
            assert forall|k: int| 0 <= k < singles.len() implies shown_by(ext, f.0, ext[#[trigger] singles[k] as int], f.0.len() - 1) by {
                assert(k < f.1);
            }
        }
        lemma_slots_extend_push(ext, f.0, x, singles, out.len() as int, ps, reserve);
        lemma_push_unique_extends(ext, f.0, x);
        lemma_first_singles_extend(ext, f.0, push_unique(ext, f.0, x), singles, f.1);
    }
}

proof fn lemma_push_singles_hold(
    ext: Seq<Seq<char>>,
    o: Seq<usize>,
    left: Seq<usize>,
    singles: Seq<usize>,
    start: int,
    ps: int,
    reserve: int,
)
    requires
        0 <= start <= o.len(),
        slots_hold_singles(ext, o, singles, start, ps, reserve),
        forall|j: int| 0 <= j < left.len() ==> is_single(ext, singles, ext[#[trigger] left[j] as int]),
    ensures
        slots_hold_singles(ext, push_all(ext, o, left), singles, start, ps, reserve),
    decreases left.len(),
{
    if left.len() > 0 {
        lemma_push_singles_hold(ext, o, left.drop_last(), singles, start, ps, reserve);
        let m = push_all(ext, o, left.drop_last());
        lemma_push_all_grows(ext, o, left.drop_last());
        assert(is_single(ext, singles, ext[left[left.len() - 1] as int]));
        lemma_slots_extend_push(ext, m, left.last(), singles, start, ps, reserve);
    }
}

/// After the head `out`, every slot of the first page and the reserved last
/// slots of each later page hold a single character, until every single is
/// shown.
pub proof fn lemma_spread_fills_single_slots(
    ext: Seq<Seq<char>>,
    out: Seq<usize>,
    rest: Seq<usize>,
    singles: Seq<usize>,
    ps: int,
    reserve: int,
)
    ensures
        slots_hold_singles(ext, spread_singles(ext, out, rest, singles, ps, reserve), singles, out.len() as int, ps, reserve),
{
    lemma_interleave_hold(ext, out, rest, singles, ps, reserve);
    let q = interleave(ext, out, rest, singles, ps, reserve);
    let left = singles.skip(q.1);
    assert forall|j: int| 0 <= j < left.len() implies is_single(ext, singles, ext[#[trigger] left[j] as int]) by {
        assert(left[j] == singles[q.1 + j]);
    }
    lemma_push_singles_hold(ext, q.0, left, singles, out.len() as int, ps, reserve);
}

/// Single characters on every page: after a head shorter than a page, the
/// rest of the first page and the reserved last slots of each later page
/// hold single characters of the first syllable, until all of them are
/// shown.
pub proof fn lemma_singles_on_every_page(
    ph: Seq<Seq<char>>,
    rows: Seq<PhraseHeadRow>,
    first: Seq<Seq<char>>,
    pool: Seq<Seq<char>>,
    prefix: Seq<Seq<char>>,
    lay: PhraseHeadLayout,
)
    requires
        lay.has_first_syllable,
    ensures
        ({
            let ext = ph + first + pool + prefix;
            let r = phrase_head_order(ph, rows, first, pool, prefix, lay);
            let singles = head_singles(
                ph.len() as int,
                first.len() as int,
                pool.len() as int,
                identity(ph.len()).filter(is_ranked_single(ph, rows)),
                lay,
            );
            exists|h: int|
                0 <= h < clamp_page(lay.page_size) && #[trigger] slots_hold_singles(
                    ext,
                    r,
                    singles,
                    h,
                    clamp_page(lay.page_size),
                    reserved_single_slots(lay),
                )
        }),
{
    let ext = ph + first + pool + prefix;
    let r = phrase_head_order(ph, rows, first, pool, prefix, lay);
    let n = ph.len() as int;
    let id = identity(ph.len());
    let sc = lay.syllable_count;
    let exact = id.filter(is_exact_multi(ph, rows, sc));
    let composed = id.filter(is_composed_multi(ph, rows, sc));
    let others = id.filter(is_other_length(ph, sc));
    let singles = head_singles(n, first.len() as int, pool.len() as int, id.filter(is_ranked_single(ph, rows)), lay);
    let he = head_len(exact, rows, exact_head_bounds(sc).0, exact_head_bounds(sc).1);
    let hc = head_len(composed, rows, MULTI_SYLL_PHRASE_HEAD_MIN, MULTI_SYLL_PHRASE_HEAD_MAX);
    let ps = clamp_page(lay.page_size);
    let reserve = reserved_single_slots(lay);
    let limit0 = if ps - reserve > 1 { ps - reserve } else { 1 };
    let e: Seq<usize> = Seq::empty();
    assert(1 <= reserve <= ps - 1);
    lemma_head_len_bounds(exact, rows, exact_head_bounds(sc).0, exact_head_bounds(sc).1);
    lemma_head_len_bounds(composed, rows, MULTI_SYLL_PHRASE_HEAD_MIN, MULTI_SYLL_PHRASE_HEAD_MAX);
    if exact.len() > 0 {
        let front_limit = min_of(limit0, exact_head_bounds(sc).1 as int);
        let prefix_pos = range_from(n + first.len() + pool.len(), prefix.len() as int);
        let ef = min_of(he, front_limit);
        lemma_push_all_grows(ext, e, exact.take(ef));
        let out1 = push_all(ext, e, exact.take(ef));
        let pf = min_of(prefix_pos.len() as int, if front_limit > ef { front_limit - ef } else { 0 });
        lemma_push_all_grows(ext, out1, prefix_pos.take(pf));
        let out2 = push_all(ext, out1, prefix_pos.take(pf));
        let eh = exact.subrange(ef, he);
        let et = exact.skip(he);
        let pr = prefix_pos.skip(pf);
        let fill = sc == 2 && !lay.composing_phrase;
        let cnt = (if ps - reserve > out2.len() { ps - reserve - out2.len() } else { 0 }) as nat;
        let st = if fill { front_fill(ext, rows, out2, eh, et, pr, cnt) } else { (out2, eh, et, pr) };
        if fill {
            lemma_front_fill_grows(ext, rows, out2, eh, et, pr, cnt);
        }
        assert(st.0.len() <= ps - reserve);
        let rest = st.1 + st.2 + st.3 + composed.take(hc) + composed.skip(hc) + others;
        lemma_spread_fills_single_slots(ext, st.0, rest, singles, ps, reserve);
        assert(slots_hold_singles(ext, r, singles, st.0.len() as int, ps, reserve));
    } else {
        let front_limit = min_of(limit0, MULTI_SYLL_PHRASE_HEAD_MAX as int);
        let cf = min_of(hc, front_limit);
        lemma_push_all_grows(ext, e, composed.take(cf));
        let o1 = push_all(ext, e, composed.take(cf));
        let rest = composed.subrange(cf, hc) + composed.skip(hc) + others;
        lemma_spread_fills_single_slots(ext, o1, rest, singles, ps, reserve);
        assert(slots_hold_singles(ext, r, singles, o1.len() as int, ps, reserve));
    }
}

} // verus!
