//! Page layouts of the candidate list for short inputs. Each arrangement
//! takes the phrase lengths (in characters) of the ranked candidates and
//! gives the new order as positions into that list; the caller moves its
//! candidates accordingly.
use vstd::prelude::*;
use vstd::multiset::Multiset;

verus! {

/// The largest page of the candidate window.
pub const MAX_PAGE_SIZE: usize = 9;

/// The positions `0 .. n`, in order.
pub open spec fn identity(n: nat) -> Seq<usize> {
    Seq::new(n, |i: int| i as usize)
}

/// The positions below `n` whose length `f` accepts, in order.
pub open spec fn positions_where(lens: Seq<usize>, n: int, f: spec_fn(usize) -> bool) -> Seq<usize>
    decreases n,
{
    if n <= 0 {
        Seq::empty()
    } else {
        let p = positions_where(lens, n - 1, f);
        if f(lens[n - 1]) {
            p.push((n - 1) as usize)
        } else {
            p
        }
    }
}

pub open spec fn is_len(k: usize) -> spec_fn(usize) -> bool {
    |l: usize| l == k
}

pub open spec fn is_other_len() -> spec_fn(usize) -> bool {
    |l: usize| l != 1 && l != 2
}

pub open spec fn clamp_page(page_size: usize) -> int {
    if page_size < 3 {
        3
    } else if page_size > MAX_PAGE_SIZE {
        MAX_PAGE_SIZE as int
    } else {
        page_size as int
    }
}

/// Pages of `twos` and `singles`: each page takes the next `per_page`
/// two-character candidates and fills up to `page` with the next single
/// characters; also how many single characters were used.
pub open spec fn two_pages(twos: Seq<usize>, singles: Seq<usize>, per_page: int, page: int) -> (Seq<usize>, int)
    decreases twos.len(),
{
    if twos.len() == 0 || per_page <= 0 {
        (Seq::empty(), 0)
    } else {
        let c = if twos.len() < per_page {
            twos.len() as int
        } else {
            per_page
        };
        let fill = if page - c < singles.len() {
            if page - c < 0 {
                0
            } else {
                page - c
            }
        } else {
            singles.len() as int
        };
        let next = two_pages(twos.skip(c), singles.skip(fill), per_page, page);
        (twos.take(c) + singles.take(fill) + next.0, fill + next.1)
    }
}

/// The two-character layout: the two-character candidates, all but one
/// slot of each page, each page filled up with single characters; then
/// the other candidates, then the remaining single characters. Without
/// two-character candidates: single characters, then the others. One
/// candidate or none stays as it is.
pub open spec fn two_char_density(lens: Seq<usize>, page_size: usize) -> Seq<usize> {
    let n = lens.len() as int;
    if n <= 1 {
        identity(lens.len())
    } else {
        let p = clamp_page(page_size);
        let twos = positions_where(lens, n, is_len(2));
        let singles = positions_where(lens, n, is_len(1));
        let rest = positions_where(lens, n, is_other_len());
        if twos.len() == 0 {
            singles + rest
        } else {
            let pg = two_pages(twos, singles, p - 1, p);
            pg.0 + rest + singles.skip(pg.1)
        }
    }
}

/// The positions of `lens` whose length `f` accepts.
pub(crate) fn positions_with(lens: &Vec<usize>, f: Ghost<spec_fn(usize) -> bool>, want: usize, other: bool) -> (r: Vec<usize>)
    requires
        other ==> f@ == is_other_len(),
        !other ==> f@ == is_len(want),
    ensures
        r@ == positions_where(lens@, lens@.len() as int, f@),
{
    let mut out: Vec<usize> = Vec::new();
    let mut i: usize = 0;
    while i < lens.len()
        invariant
            i <= lens.len(),
            other ==> f@ == is_other_len(),
            !other ==> f@ == is_len(want),
            out@ == positions_where(lens@, i as int, f@),
        decreases lens.len() - i,
    {
        let l = lens[i];
        let keep = if other {
            l != 1 && l != 2
        } else {
            l == want
        };
        if keep {
            out.push(i);
        }
        i += 1;
    }
    out
}

pub(crate) fn append_all(out: &mut Vec<usize>, src: &Vec<usize>, from: usize, to: usize)
    requires
        from <= to <= src.len(),
    ensures
        final(out)@ == old(out)@ + src@.subrange(from as int, to as int),
{
    let mut i = from;
    while i < to
        invariant
            from <= i <= to <= src.len(),
            out@ == old(out)@ + src@.subrange(from as int, i as int),
        decreases to - i,
    {
        out.push(src[i]);
        assert(src@.subrange(from as int, i + 1) =~= src@.subrange(from as int, i as int).push(src@[i as int]));
        i += 1;
    }
}

/// The two-character page layout of candidates with phrase lengths `lens`.
pub fn arrange_two_char_intent_page_density(lens: &Vec<usize>, page_size: usize) -> (r: Vec<usize>)
    ensures
        r@ == two_char_density(lens@, page_size),
{
    let n = lens.len();
    if n <= 1 {
        let mut id: Vec<usize> = Vec::new();
        if n == 1 {
            id.push(0);
        }
        assert(id@ =~= identity(n as nat));
        return id;
    }
    let p: usize = if page_size < 3 {
        3
    } else if page_size > MAX_PAGE_SIZE {
        MAX_PAGE_SIZE
    } else {
        page_size
    };
    let twos = positions_with(lens, Ghost(is_len(2)), 2, false);
    let singles = positions_with(lens, Ghost(is_len(1)), 1, false);
    let rest = positions_with(lens, Ghost(is_other_len()), 0, true);
    let mut out: Vec<usize> = Vec::new();
    if twos.len() == 0 {
        append_all(&mut out, &singles, 0, singles.len());
        append_all(&mut out, &rest, 0, rest.len());
        assert(singles@.subrange(0, singles@.len() as int) =~= singles@);
        assert(rest@.subrange(0, rest@.len() as int) =~= rest@);
        return out;
    }
    let per = p - 1;
    let mut ti: usize = 0;
    let mut si: usize = 0;
    assert(twos@.skip(0) =~= twos@);
    assert(singles@.skip(0) =~= singles@);
    while ti < twos.len()
        invariant
            2 <= per < p <= MAX_PAGE_SIZE,
            ti <= twos.len(),
            si <= singles.len(),
            two_pages(twos@, singles@, per as int, p as int) == ({
                let next = two_pages(twos@.skip(ti as int), singles@.skip(si as int), per as int, p as int);
                (out@ + next.0, si + next.1)
            }),
        decreases twos.len() - ti,
    {
        let ghost tw = twos@.skip(ti as int);
        let ghost sg = singles@.skip(si as int);
        let c: usize = if twos.len() - ti < per {
            twos.len() - ti
        } else {
            per
        };
        let fill: usize = if p - c < singles.len() - si {
            p - c
        } else {
            singles.len() - si
        };
        let ghost before = out@;
        append_all(&mut out, &twos, ti, ti + c);
        append_all(&mut out, &singles, si, si + fill);
        assert(twos@.subrange(ti as int, ti + c) =~= tw.take(c as int));
        assert(singles@.subrange(si as int, si + fill) =~= sg.take(fill as int));
        assert(tw.skip(c as int) =~= twos@.skip(ti + c));
        assert(sg.skip(fill as int) =~= singles@.skip(si + fill));
        let ghost next = two_pages(twos@.skip(ti + c), singles@.skip(si + fill), per as int, p as int);
        assert(before + (tw.take(c as int) + sg.take(fill as int) + next.0) =~= out@ + next.0);
        ti += c;
        si += fill;
    }
    assert(twos@.skip(ti as int) =~= Seq::<usize>::empty());
    assert(out@ + Seq::<usize>::empty() =~= out@);
    append_all(&mut out, &rest, 0, rest.len());
    append_all(&mut out, &singles, si, singles.len());
    assert(rest@.subrange(0, rest@.len() as int) =~= rest@);
    assert(singles@.subrange(si as int, singles@.len() as int) =~= singles@.skip(si as int));
    out
}

proof fn lemma_take_skip_ms(s: Seq<usize>, k: int)
    requires
        0 <= k <= s.len(),
    ensures
        s.to_multiset() == s.take(k).to_multiset().add(s.skip(k).to_multiset()),
{
    broadcast use {vstd::seq_lib::group_to_multiset_ensures, vstd::multiset::group_multiset_axioms};

    assert(s =~= s.take(k) + s.skip(k));
    vstd::seq_lib::lemma_multiset_commutative(s.take(k), s.skip(k));
}

/// The three length classes together hold each position below `n` once.
proof fn lemma_partition(lens: Seq<usize>, n: int)
    requires
        0 <= n <= lens.len(),
    ensures
        positions_where(lens, n, is_len(2)).to_multiset().add(positions_where(lens, n, is_len(1)).to_multiset()).add(
            positions_where(lens, n, is_other_len()).to_multiset(),
        ) == identity(n as nat).to_multiset(),
    decreases n,
{
    broadcast use {vstd::seq_lib::group_to_multiset_ensures, vstd::multiset::group_multiset_axioms};

    if n == 0 {
        assert(identity(0) =~= Seq::<usize>::empty());
    } else {
        lemma_partition(lens, n - 1);
        assert(identity(n as nat) =~= identity((n - 1) as nat).push((n - 1) as usize));
    }
}

/// Laying out pages uses some single characters and all two-character
/// candidates, and loses none.
proof fn lemma_two_pages_ms(twos: Seq<usize>, singles: Seq<usize>, per: int, page: int)
    requires
        per >= 1,
    ensures
        0 <= two_pages(twos, singles, per, page).1 <= singles.len(),
        two_pages(twos, singles, per, page).0.to_multiset().add(
            singles.skip(two_pages(twos, singles, per, page).1).to_multiset(),
        ) == twos.to_multiset().add(singles.to_multiset()),
    decreases twos.len(),
{
    broadcast use {vstd::seq_lib::group_to_multiset_ensures, vstd::multiset::group_multiset_axioms};

    if twos.len() == 0 {
        assert(singles.skip(0) =~= singles);
    } else {
        let c = if twos.len() < per {
            twos.len() as int
        } else {
            per
        };
        let fill = if page - c < singles.len() {
            if page - c < 0 {
                0
            } else {
                page - c
            }
        } else {
            singles.len() as int
        };
        let tw2 = twos.skip(c);
        let sg2 = singles.skip(fill);
        lemma_two_pages_ms(tw2, sg2, per, page);
        let next = two_pages(tw2, sg2, per, page);
        assert(sg2.skip(next.1) =~= singles.skip(fill + next.1));
        lemma_take_skip_ms(twos, c);
        lemma_take_skip_ms(singles, fill);
        vstd::seq_lib::lemma_multiset_commutative(twos.take(c), singles.take(fill));
        vstd::seq_lib::lemma_multiset_commutative(twos.take(c) + singles.take(fill), next.0);
        let a = twos.take(c).to_multiset();
        let b = tw2.to_multiset();
        let s1 = singles.take(fill).to_multiset();
        let s2 = sg2.to_multiset();
        let nn = next.0.to_multiset();
        let rr = sg2.skip(next.1).to_multiset();
        assert(nn.add(rr) == b.add(s2));
        assert((twos.take(c) + singles.take(fill)).to_multiset() == a.add(s1));
        assert((twos.take(c) + singles.take(fill) + next.0).to_multiset() == a.add(s1).add(nn));
        assert(twos.to_multiset() == a.add(b));
        assert(singles.to_multiset() == s1.add(s2));
        assert forall|x: usize| #[trigger] a.add(s1).add(nn).add(rr).count(x) == a.add(b).add(s1.add(s2)).count(x) by {
            assert(nn.add(rr).count(x) == b.add(s2).count(x));
        }
        assert(a.add(s1).add(nn).add(rr) =~= a.add(b).add(s1.add(s2)));
    }
}

/// The two-character layout is a rearrangement: every candidate appears
/// exactly once.
pub proof fn lemma_two_char_density_is_permutation(lens: Seq<usize>, page_size: usize)
    ensures
        two_char_density(lens, page_size).to_multiset() == identity(lens.len()).to_multiset(),
{
    broadcast use {vstd::seq_lib::group_to_multiset_ensures, vstd::multiset::group_multiset_axioms};

    let n = lens.len() as int;
    if n > 1 {
        let p = clamp_page(page_size);
        let twos = positions_where(lens, n, is_len(2));
        let singles = positions_where(lens, n, is_len(1));
        let rest = positions_where(lens, n, is_other_len());
        lemma_partition(lens, n);
        if twos.len() == 0 {
            vstd::seq_lib::lemma_multiset_commutative(singles, rest);
            assert(twos.to_multiset() =~= Multiset::empty());
        } else {
            let pg = two_pages(twos, singles, p - 1, p);
            lemma_two_pages_ms(twos, singles, p - 1, p);
            vstd::seq_lib::lemma_multiset_commutative(pg.0, rest);
            vstd::seq_lib::lemma_multiset_commutative(pg.0 + rest, singles.skip(pg.1));
        }
    }
}

pub open spec fn min_int(a: int, b: int) -> int {
    if a < b {
        a
    } else {
        b
    }

}

proof fn lemma_positions_where_has(lens: Seq<usize>, n: int, f: spec_fn(usize) -> bool)
    requires
        0 <= n <= lens.len() <= usize::MAX,
    ensures
        forall|i: int| 0 <= i < positions_where(lens, n, f).len() ==> #[trigger] positions_where(lens, n, f)[i] < n
            && f(lens[positions_where(lens, n, f)[i] as int]),
    decreases n,
{
    if n > 0 {
        lemma_positions_where_has(lens, n - 1, f);
        let pp = positions_where(lens, n - 1, f);
        if f(lens[n - 1]) {
            assert(positions_where(lens, n, f) == pp.push((n - 1) as usize));
        }
    }
}

/// The free single-character slots on the pages that `k` two-character
/// candidates fill at `q` per page of `q + 1`.
pub open spec fn two_page_slots(k: int, q: int) -> int {
    if k <= 0 {
        0
    } else {
        ((k + q - 1) / q) * (q + 1) - k
    }
}

proof fn lemma_two_pages_counts(lens: Seq<usize>, twos: Seq<usize>, singles: Seq<usize>, q: int)
    requires
        q >= 1,
        forall|i: int| 0 <= i < twos.len() ==> #[trigger] twos[i] < lens.len() && lens[twos[i] as int] == 2,
        forall|i: int| 0 <= i < singles.len() ==> #[trigger] singles[i] < lens.len() && lens[singles[i] as int] == 1,
    ensures
        ({
            let pg = two_pages(twos, singles, q, q + 1);
            &&& pg.0.len() == twos.len() + pg.1
            &&& pg.1 == min_int(singles.len() as int, two_page_slots(twos.len() as int, q))
            &&& forall|i: int| 0 <= i < pg.0.len() ==> #[trigger] pg.0[i] < lens.len() && (lens[pg.0[i] as int] == 1
                || lens[pg.0[i] as int] == 2)
        }),
    decreases twos.len(),
{
    let t = twos.len() as int;
    let p = q + 1;
    if t > 0 {
        let c = if t < q {
            t
        } else {
            q
        };
        let fill = if p - c < singles.len() {
            if p - c < 0 {
                0
            } else {
                p - c
            }
        } else {
            singles.len() as int
        };
        let tw2 = twos.skip(c);
        let sg2 = singles.skip(fill);
        lemma_two_pages_counts(lens, tw2, sg2, q);
        lemma_two_pages_ms(tw2, sg2, q, p);
        lemma_two_pages_ms(twos, singles, q, p);
        let next = two_pages(tw2, sg2, q, p);
        let pg = two_pages(twos, singles, q, p);
        assert(pg.0 == twos.take(c) + singles.take(fill) + next.0);
        assert(pg.1 == fill + next.1);
        if t <= q {
            assert(tw2.len() == 0);
            vstd::arithmetic::div_mod::lemma_div_multiples_vanish_fancy(1, t - 1, q);
            assert(q * 1 + (t - 1) == t + q - 1);
            assert((t + q - 1) / q == 1);
            assert(two_page_slots(t, q) == p - t);
        } else {
            vstd::arithmetic::div_mod::lemma_div_plus_one(t - 1, q);
            assert(q + (t - 1) == t + q - 1);
            let d = (t - 1) / q;
            assert((t - q + q - 1) / q == d);
            assert((1 + d) * p == d * p + p) by (nonlinear_arith);
            assert(two_page_slots(t, q) == 1 + two_page_slots(t - q, q));
        }
        assert forall|i: int| 0 <= i < pg.0.len() implies #[trigger] pg.0[i] < lens.len() && (lens[pg.0[i] as int]
            == 1 || lens[pg.0[i] as int] == 2) by {
            if i < c {
                assert(pg.0[i] == twos[i]);
            } else if i < c + fill {
                assert(pg.0[i] == singles[i - c]);
            } else {
                assert(pg.0[i] == next.0[i - c - fill]);
            }
        }
    }
}

/// The two-character layout, by lengths: the pages come first and hold
/// only two-character candidates and single characters, every
/// two-character candidate among them together with as many single
/// characters as fit in the free slots of those pages (`q = page - 1` two
/// per page); then all candidates of any other length; then the single
/// characters left over. Without two-character candidates: the single
/// characters, then the others.
pub proof fn lemma_two_char_density_by_length(lens: Seq<usize>, page_size: usize)
    requires
        1 < lens.len() <= usize::MAX,
    ensures
        ({
            let n = lens.len() as int;
            let r = two_char_density(lens, page_size);
            let q = clamp_page(page_size) - 1;
            let k = positions_where(lens, n, is_len(2)).len() as int;
            let s = positions_where(lens, n, is_len(1)).len() as int;
            let m = positions_where(lens, n, is_other_len()).len() as int;
            let pages = k + min_int(s, two_page_slots(k, q));
            &&& r.len() == n
            &&& forall|i: int| 0 <= i < n ==> #[trigger] r[i] < n
            &&& k > 0 ==> forall|i: int| 0 <= i < pages ==> #[trigger] lens[r[i] as int] == 1 || lens[r[i] as int] == 2
            &&& k > 0 ==> forall|i: int|
                pages <= i < pages + m ==> #[trigger] lens[r[i] as int] != 1 && lens[r[i] as int] != 2
            &&& k > 0 ==> forall|i: int| pages + m <= i < n ==> #[trigger] lens[r[i] as int] == 1
            &&& k == 0 ==> forall|i: int| 0 <= i < s ==> #[trigger] lens[r[i] as int] == 1
            &&& k == 0 ==> forall|i: int| s <= i < n ==> #[trigger] lens[r[i] as int] != 1 && lens[r[i] as int] != 2
        }),
{
    broadcast use {vstd::seq_lib::group_to_multiset_ensures, vstd::multiset::group_multiset_axioms};

    let n = lens.len() as int;
    let p = clamp_page(page_size);
    let q = p - 1;
    let twos = positions_where(lens, n, is_len(2));
    let singles = positions_where(lens, n, is_len(1));
    let rest = positions_where(lens, n, is_other_len());
    lemma_positions_where_has(lens, n, is_len(2));
    lemma_positions_where_has(lens, n, is_len(1));
    lemma_positions_where_has(lens, n, is_other_len());
    lemma_two_char_density_is_permutation(lens, page_size);
    let r = two_char_density(lens, page_size);
    assert(r.len() == identity(lens.len()).len()) by {
        assert(r.to_multiset().len() == r.len());
        assert(identity(lens.len()).to_multiset().len() == identity(lens.len()).len());
    }
    assert forall|i: int| 0 <= i < n implies #[trigger] r[i] < n by {
        assert(r.to_multiset().count(r[i]) > 0);
        assert(identity(lens.len()).contains(r[i]));
    }
    let k = twos.len() as int;
    let m = rest.len() as int;
    if k == 0 {
        assert(r == singles + rest);
        assert forall|i: int| 0 <= i < singles.len() implies #[trigger] lens[r[i] as int] == 1 by {
            assert(r[i] == singles[i]);
        }
        assert forall|i: int| singles.len() <= i < n implies #[trigger] lens[r[i] as int] != 1 && lens[r[i] as int]
            != 2 by {
            assert(r[i] == rest[i - singles.len()]);
        }
    } else {
        lemma_two_pages_counts(lens, twos, singles, q);
        lemma_two_pages_ms(twos, singles, q, p);
        let pg = two_pages(twos, singles, q, p);
        assert(r == pg.0 + rest + singles.skip(pg.1));
        let pages = pg.0.len() as int;
        assert forall|i: int| 0 <= i < pages implies #[trigger] lens[r[i] as int] == 1 || lens[r[i] as int] == 2 by {
            assert(r[i] == pg.0[i]);
        }
        assert forall|i: int| pages <= i < pages + m implies #[trigger] lens[r[i] as int] != 1 && lens[r[i] as int]
            != 2 by {
            assert(r[i] == rest[i - pages]);
        }
        assert forall|i: int| pages + m <= i < n implies #[trigger] lens[r[i] as int] == 1 by {
            assert(r[i] == singles.skip(pg.1)[i - pages - m]);
            assert(singles.skip(pg.1)[i - pages - m] == singles[i - pages - m + pg.1]);
        }
    }
}

/// How many two-character candidates open the next page: the minimum, or
/// all that are left when fewer than another minimum would remain, at
/// most a page.
pub open spec fn opening_twos(pending: int, min2: int, page: int) -> int {
    let t = min_int(min2, pending);
    let leftover = pending - t;
    if leftover > 0 && leftover < min2 {
        min_int(min_int(t + leftover, page), pending)
    } else {
        t
    }
}

/// Pages that each open with `opening_twos` two-character candidates, fill
/// up with single characters, and then with more two-character candidates
/// if singles run out; also how many single characters were used.
pub open spec fn min_pages(twos: Seq<usize>, singles: Seq<usize>, min2: int, page: int) -> (Seq<usize>, int)
    decreases twos.len(),
{
    if twos.len() == 0 || min2 <= 0 || page < min2 {
        (Seq::empty(), 0)
    } else {
        let t = opening_twos(twos.len() as int, min2, page);
        let fill = min_int(page - t, singles.len() as int);
        let extra = min_int(page - t - fill, twos.len() - t);
        let next = min_pages(twos.skip(t + extra), singles.skip(fill), min2, page);
        (twos.take(t) + singles.take(fill) + twos.subrange(t, t + extra) + next.0, fill + next.1)
    }
}

/// The minimum two-character layout: each page opens with at least two
/// two-character candidates (four when there are four or more), fills up
/// with single characters and then with more two-character candidates;
/// then the other candidates, then the remaining single characters.
/// Without two-character candidates: single characters, then the others.
pub open spec fn two_char_minimum_density(lens: Seq<usize>, page_size: usize) -> Seq<usize> {
    let n = lens.len() as int;
    if n <= 1 {
        identity(lens.len())
    } else {
        let p = clamp_page(page_size);
        let twos = positions_where(lens, n, is_len(2));
        let singles = positions_where(lens, n, is_len(1));
        let rest = positions_where(lens, n, is_other_len());
        let t = twos.len() as int;
        if t == 0 {
            singles + rest
        } else {
            let min2 = if t >= 4 {
                min_int(min_int(4, p), t)
            } else {
                min_int(min_int(2, p), t)
            };
            let pg = min_pages(twos, singles, min2, p);
            pg.0 + rest + singles.skip(pg.1)
        }
    }
}


/// The counts of one page: opening two-character candidates, single
/// characters, and further two-character candidates.
fn page_counts(pending: usize, left_singles: usize, min2: usize, p: usize) -> (r: (usize, usize, usize))
    requires
        1 <= min2 <= p <= MAX_PAGE_SIZE,
        pending >= 1,
    ensures
        r.0 as int == opening_twos(pending as int, min2 as int, p as int),
        r.1 as int == min_int(p - r.0, left_singles as int),
        r.2 as int == min_int(p - r.0 - r.1, pending - r.0),
        1 <= r.0,
        r.0 + r.2 <= pending,
        r.1 <= left_singles,
{
    let mut take: usize = if min2 < pending {
        min2
    } else {
        pending
    };
    let leftover = pending - take;
    if leftover > 0 && leftover < min2 {
        let grown = if take + leftover < p {
            take + leftover
        } else {
            p
        };
        take = if grown < pending {
            grown
        } else {
            pending
        };
    }
    let fill: usize = if p - take < left_singles {
        p - take
    } else {
        left_singles
    };
    let room = p - take - fill;
    let extra: usize = if room < pending - take {
        room
    } else {
        pending - take
    };
    (take, fill, extra)
}

proof fn lemma_min_pages_step(twos: Seq<usize>, singles: Seq<usize>, ti: int, si: int, min2: int, p: int)
    requires
        0 <= ti < twos.len(),
        0 <= si <= singles.len(),
        1 <= min2 <= p,
    ensures
        ({
            let tw = twos.skip(ti);
            let sg = singles.skip(si);
            let t = opening_twos(tw.len() as int, min2, p);
            let fill = min_int(p - t, sg.len() as int);
            let extra = min_int(p - t - fill, tw.len() - t);
            min_pages(tw, sg, min2, p) == (twos.subrange(ti, ti + t) + singles.subrange(si, si + fill)
                + twos.subrange(ti + t, ti + t + extra) + min_pages(
                twos.skip(ti + t + extra),
                singles.skip(si + fill),
                min2,
                p,
            ).0, fill + min_pages(twos.skip(ti + t + extra), singles.skip(si + fill), min2, p).1)
        }),
{
    let tw = twos.skip(ti);
    let sg = singles.skip(si);
    let t = opening_twos(tw.len() as int, min2, p);
    let fill = min_int(p - t, sg.len() as int);
    let extra = min_int(p - t - fill, tw.len() - t);
    assert(tw.take(t) =~= twos.subrange(ti, ti + t));
    assert(sg.take(fill) =~= singles.subrange(si, si + fill));
    assert(tw.subrange(t, t + extra) =~= twos.subrange(ti + t, ti + t + extra));
    assert(tw.skip(t + extra) =~= twos.skip(ti + t + extra));
    assert(sg.skip(fill) =~= singles.skip(si + fill));
}

/// The minimum two-character page layout of candidates with phrase
/// lengths `lens`.
#[verifier::rlimit(40)]
pub fn arrange_two_char_intent_minimum_page_density(lens: &Vec<usize>, page_size: usize) -> (r: Vec<usize>)
    ensures
        r@ == two_char_minimum_density(lens@, page_size),
{
    let n = lens.len();
    if n <= 1 {
        let mut id: Vec<usize> = Vec::new();
        if n == 1 {
            id.push(0);
        }
        assert(id@ =~= identity(n as nat));
        return id;
    }
    let p: usize = if page_size < 3 {
        3
    } else if page_size > MAX_PAGE_SIZE {
        MAX_PAGE_SIZE
    } else {
        page_size
    };
    let twos = positions_with(lens, Ghost(is_len(2)), 2, false);
    let singles = positions_with(lens, Ghost(is_len(1)), 1, false);
    let rest = positions_with(lens, Ghost(is_other_len()), 0, true);
    let mut out: Vec<usize> = Vec::new();
    let t = twos.len();
    if t == 0 {
        append_all(&mut out, &singles, 0, singles.len());
        append_all(&mut out, &rest, 0, rest.len());
        assert(singles@.subrange(0, singles@.len() as int) =~= singles@);
        assert(rest@.subrange(0, rest@.len() as int) =~= rest@);
        return out;
    }
    let cap: usize = if t >= 4 {
        4
    } else {
        2
    };
    let min2: usize = if cap < p {
        if cap < t {
            cap
        } else {
            t
        }
    } else {
        if p < t {
            p
        } else {
            t
        }
    };
    let mut ti: usize = 0;
    let mut si: usize = 0;
    assert(twos@.skip(0) =~= twos@);
    assert(singles@.skip(0) =~= singles@);
    while ti < twos.len()
        invariant
            1 <= min2 <= p <= MAX_PAGE_SIZE,
            ti <= twos.len(),
            si <= singles.len(),
            min_pages(twos@, singles@, min2 as int, p as int) == ({
                let next = min_pages(twos@.skip(ti as int), singles@.skip(si as int), min2 as int, p as int);
                (out@ + next.0, si + next.1)
            }),
        decreases twos.len() - ti,
    {
        let (take, fill, extra) = page_counts(twos.len() - ti, singles.len() - si, min2, p);
        proof {
            lemma_min_pages_step(twos@, singles@, ti as int, si as int, min2 as int, p as int);
        }
        let ghost before = out@;
        append_all(&mut out, &twos, ti, ti + take);
        append_all(&mut out, &singles, si, si + fill);
        append_all(&mut out, &twos, ti + take, ti + take + extra);
        let ghost next = min_pages(twos@.skip(ti + take + extra), singles@.skip(si + fill), min2 as int, p as int);
        assert(before + (twos@.subrange(ti as int, ti + take) + singles@.subrange(si as int, si + fill)
            + twos@.subrange(ti + take, ti + take + extra) + next.0) =~= out@ + next.0);
        ti += take + extra;
        si += fill;
    }
    assert(twos@.skip(ti as int) =~= Seq::<usize>::empty());
    assert(out@ + Seq::<usize>::empty() =~= out@);
    append_all(&mut out, &rest, 0, rest.len());
    append_all(&mut out, &singles, si, singles.len());
    assert(rest@.subrange(0, rest@.len() as int) =~= rest@);
    assert(singles@.subrange(si as int, singles@.len() as int) =~= singles@.skip(si as int));
    out
}

proof fn lemma_min_pages_ms(twos: Seq<usize>, singles: Seq<usize>, min2: int, page: int)
    ensures
        0 <= min_pages(twos, singles, min2, page).1 <= singles.len(),
        min2 >= 1 && page >= min2 ==> min_pages(twos, singles, min2, page).0.to_multiset().add(
            singles.skip(min_pages(twos, singles, min2, page).1).to_multiset(),
        ) == twos.to_multiset().add(singles.to_multiset()),
    decreases twos.len(),
{
    broadcast use {vstd::seq_lib::group_to_multiset_ensures, vstd::multiset::group_multiset_axioms};

    if twos.len() == 0 || min2 <= 0 || page < min2 {
        assert(singles.skip(0) =~= singles);
    } else {
        let t = opening_twos(twos.len() as int, min2, page);
        let fill = min_int(page - t, singles.len() as int);
        let extra = min_int(page - t - fill, twos.len() - t);
        let tw2 = twos.skip(t + extra);
        let sg2 = singles.skip(fill);
        lemma_min_pages_ms(tw2, sg2, min2, page);
        let next = min_pages(tw2, sg2, min2, page);
        assert(sg2.skip(next.1) =~= singles.skip(fill + next.1));
        let head = twos.take(t + extra);
        assert(head =~= twos.take(t) + twos.subrange(t, t + extra));
        vstd::seq_lib::lemma_multiset_commutative(twos.take(t), twos.subrange(t, t + extra));
        lemma_take_skip_ms(twos, t + extra);
        lemma_take_skip_ms(singles, fill);
        let x = twos.take(t) + singles.take(fill);
        vstd::seq_lib::lemma_multiset_commutative(twos.take(t), singles.take(fill));
        vstd::seq_lib::lemma_multiset_commutative(x, twos.subrange(t, t + extra));
        vstd::seq_lib::lemma_multiset_commutative(x + twos.subrange(t, t + extra), next.0);
        let a = twos.take(t).to_multiset();
        let e = twos.subrange(t, t + extra).to_multiset();
        let b = tw2.to_multiset();
        let s1 = singles.take(fill).to_multiset();
        let s2 = sg2.to_multiset();
        let nn = next.0.to_multiset();
        let rr = sg2.skip(next.1).to_multiset();
        assert(nn.add(rr) == b.add(s2));
        assert forall|v: usize| #[trigger] a.add(s1).add(e).add(nn).add(rr).count(v) == a.add(e).add(b).add(
            s1.add(s2),
        ).count(v) by {
            assert(nn.add(rr).count(v) == b.add(s2).count(v));
        }
        assert(a.add(s1).add(e).add(nn).add(rr) =~= a.add(e).add(b).add(s1.add(s2)));
    }
}

/// The minimum two-character layout is a rearrangement: every candidate
/// appears exactly once.
pub proof fn lemma_two_char_minimum_density_is_permutation(lens: Seq<usize>, page_size: usize)
    ensures
        two_char_minimum_density(lens, page_size).to_multiset() == identity(lens.len()).to_multiset(),
{
    broadcast use {vstd::seq_lib::group_to_multiset_ensures, vstd::multiset::group_multiset_axioms};

    let n = lens.len() as int;
    if n > 1 {
        let p = clamp_page(page_size);
        let twos = positions_where(lens, n, is_len(2));
        let singles = positions_where(lens, n, is_len(1));
        let rest = positions_where(lens, n, is_other_len());
        lemma_partition(lens, n);
        let t = twos.len() as int;
        if t == 0 {
            vstd::seq_lib::lemma_multiset_commutative(singles, rest);
            assert(twos.to_multiset() =~= Multiset::empty());
        } else {
            let min2 = if t >= 4 {
                min_int(min_int(4, p), t)
            } else {
                min_int(min_int(2, p), t)
            };
            let pg = min_pages(twos, singles, min2, p);
            lemma_min_pages_ms(twos, singles, min2, p);
            vstd::seq_lib::lemma_multiset_commutative(pg.0, rest);
            vstd::seq_lib::lemma_multiset_commutative(pg.0 + rest, singles.skip(pg.1));
        }
    }
}

/// How many expansion candidates (one character longer than asked) a two-
/// or three-letter input keeps, and how many single characters stay on the
/// first page.
pub const SMALL_INPUT_EXPANSION_LIMIT: usize = 2;
pub const SMALL_INPUT_THREE_CHAR_EXPANSION_LIMIT: usize = 2;
pub const SMALL_INPUT_SINGLE_CHAR_FRONT_SLOTS: usize = 2;
/// How many exact candidates may lead the first page, by input length.
pub const SHORT_INPUT_EXACT_FRONT_LIMIT_TWO: usize = 6;
pub const SHORT_INPUT_EXACT_FRONT_LIMIT_THREE: usize = 6;
pub const SHORT_INPUT_EXACT_FRONT_LIMIT_FOUR: usize = 6;

/// The first-page policy for an input that asks for `intent_chars`
/// characters.
#[derive(Clone, Copy, Debug)]
pub struct SmallInputCandidatePolicy {
    pub intent_chars: usize,
    pub expansion_chars: usize,
    pub expansion_limit: usize,
    pub page_size: usize,
    pub reserve_tail_slots: usize,
    pub reserve_single_slots: usize,
    pub exact_front_limit: usize,
    pub shorter_front_slots: usize,
}

/// The policy for two, three, and four to eight characters; none else.
pub fn small_input_candidate_policy(intent_chars: usize, page_size: usize) -> (r: Option<SmallInputCandidatePolicy>)
    ensures
        (2 <= intent_chars <= 8) <==> r is Some,
        r matches Some(pol) ==> pol.intent_chars == intent_chars && pol.expansion_chars == intent_chars + 1
            && pol.page_size == clamp_page(page_size) && pol.expansion_limit == (if intent_chars == 2 {
            SMALL_INPUT_EXPANSION_LIMIT
        } else if intent_chars == 3 {
            SMALL_INPUT_THREE_CHAR_EXPANSION_LIMIT
        } else {
            0usize
        }) && pol.reserve_tail_slots == pol.expansion_limit && pol.reserve_single_slots == (if intent_chars == 2 {
            1usize
        } else {
            SMALL_INPUT_SINGLE_CHAR_FRONT_SLOTS
        }) && pol.exact_front_limit == (if intent_chars == 2 {
            SHORT_INPUT_EXACT_FRONT_LIMIT_TWO
        } else if intent_chars == 3 {
            SHORT_INPUT_EXACT_FRONT_LIMIT_THREE
        } else {
            SHORT_INPUT_EXACT_FRONT_LIMIT_FOUR
        }) && pol.shorter_front_slots == (if intent_chars == 3 {
            2usize
        } else {
            1usize
        }),
{
    let page: usize = if page_size < 3 {
        3
    } else if page_size > MAX_PAGE_SIZE {
        MAX_PAGE_SIZE
    } else {
        page_size
    };
    if intent_chars == 2 {
        Some(SmallInputCandidatePolicy {
            intent_chars,
            expansion_chars: intent_chars + 1,
            expansion_limit: SMALL_INPUT_EXPANSION_LIMIT,
            page_size: page,
            reserve_tail_slots: SMALL_INPUT_EXPANSION_LIMIT,
            reserve_single_slots: 1,
            exact_front_limit: SHORT_INPUT_EXACT_FRONT_LIMIT_TWO,
            shorter_front_slots: 1,
        })
    } else if intent_chars == 3 {
        Some(SmallInputCandidatePolicy {
            intent_chars,
            expansion_chars: intent_chars + 1,
            expansion_limit: SMALL_INPUT_THREE_CHAR_EXPANSION_LIMIT,
            page_size: page,
            reserve_tail_slots: SMALL_INPUT_THREE_CHAR_EXPANSION_LIMIT,
            reserve_single_slots: SMALL_INPUT_SINGLE_CHAR_FRONT_SLOTS,
            exact_front_limit: SHORT_INPUT_EXACT_FRONT_LIMIT_THREE,
            shorter_front_slots: 2,
        })
    } else if 4 <= intent_chars && intent_chars <= 8 {
        Some(SmallInputCandidatePolicy {
            intent_chars,
            expansion_chars: intent_chars + 1,
            expansion_limit: 0,
            page_size: page,
            reserve_tail_slots: 0,
            reserve_single_slots: SMALL_INPUT_SINGLE_CHAR_FRONT_SLOTS,
            exact_front_limit: SHORT_INPUT_EXACT_FRONT_LIMIT_FOUR,
            shorter_front_slots: 1,
        })
    } else {
        None
    }
}

/// The groups of a small input, in list order: exact length, single
/// characters (when single slots are reserved), one character short, more
/// than one short, and the first expansion candidates (one longer, up to
/// the limit); longer candidates are dropped.
pub type SmallGroups = (Seq<usize>, Seq<usize>, Seq<usize>, Seq<usize>, Seq<usize>);

pub open spec fn small_groups(lens: Seq<usize>, n: int, pol: SmallInputCandidatePolicy) -> SmallGroups
    decreases n,
{
    if n <= 0 {
        (Seq::empty(), Seq::empty(), Seq::empty(), Seq::empty(), Seq::empty())
    } else {
        let g = small_groups(lens, n - 1, pol);
        let len = lens[n - 1];
        let i = (n - 1) as usize;
        if len == pol.intent_chars {
            (g.0.push(i), g.1, g.2, g.3, g.4)
        } else if len == 1 && pol.reserve_single_slots > 0 {
            (g.0, g.1.push(i), g.2, g.3, g.4)
        } else if len + 1 == pol.intent_chars {
            (g.0, g.1, g.2.push(i), g.3, g.4)
        } else if len < pol.intent_chars {
            (g.0, g.1, g.2, g.3.push(i), g.4)
        } else if len == pol.expansion_chars && g.4.len() < pol.expansion_limit {
            (g.0, g.1, g.2, g.3, g.4.push(i))
        } else {
            g
        }
    }
}

pub open spec fn sat_sub(a: int, b: int) -> int {
    if a > b {
        a - b
    } else {
        0
    }
}

/// The first page of a small input: the exact, one-short and shorter
/// candidates up to the room left, then the reserved single characters and
/// the expansion candidates; after the page, the remaining candidates and
/// single characters.
pub open spec fn small_input_layout(lens: Seq<usize>, pol: SmallInputCandidatePolicy) -> Seq<usize> {
    let g = small_groups(lens, lens.len() as int, pol);
    let reserve = min_int(min_int(g.4.len() as int, pol.reserve_tail_slots as int), sat_sub(pol.page_size as int, 1));
    let reserve_single = min_int(
        min_int(g.1.len() as int, pol.reserve_single_slots as int),
        sat_sub(pol.page_size as int, reserve),
    );
    let front_cap = sat_sub(pol.page_size as int, reserve + reserve_single);
    let primary = g.0 + g.2 + g.3;
    let front = min_int(primary.len() as int, front_cap);
    primary.take(front) + g.1.take(reserve_single) + g.4 + primary.skip(front) + g.1.skip(reserve_single)
}

/// How a candidate of `len` characters ranks in front of a small input:
/// 0 for the exact length, 1 for one character short, 2 for more than one
/// short, 3 for the rest (single characters with reserved slots, longer
/// candidates). A single character counts as short only when no single
/// slots are reserved.
pub open spec fn small_rank(len: usize, pol: SmallInputCandidatePolicy) -> int {
    if len == pol.intent_chars {
        0
    } else if len == 1 && pol.reserve_single_slots > 0 {
        3
    } else if len + 1 == pol.intent_chars {
        1
    } else if len < pol.intent_chars {
        2
    } else {
        3
    }
}

/// Every group of a small input lists positions below `n` in increasing
/// order, and each group holds candidates of one rank.
proof fn lemma_small_groups_shape(lens: Seq<usize>, n: int, pol: SmallInputCandidatePolicy)
    requires
        0 <= n <= lens.len() <= usize::MAX,
    ensures
        ({
            let g = small_groups(lens, n, pol);
            &&& forall|k: int| 0 <= k < g.0.len() ==> #[trigger] g.0[k] < n && small_rank(lens[g.0[k] as int], pol) == 0
            &&& forall|k: int| 0 <= k < g.1.len() ==> #[trigger] g.1[k] < n && small_rank(lens[g.1[k] as int], pol) == 3
            &&& forall|k: int| 0 <= k < g.2.len() ==> #[trigger] g.2[k] < n && small_rank(lens[g.2[k] as int], pol) == 1
            &&& forall|k: int| 0 <= k < g.3.len() ==> #[trigger] g.3[k] < n && small_rank(lens[g.3[k] as int], pol) == 2
            &&& forall|k: int| 0 <= k < g.4.len() ==> #[trigger] g.4[k] < n && small_rank(lens[g.4[k] as int], pol) == 3
            &&& forall|k1: int, k2: int| 0 <= k1 < k2 < g.0.len() ==> #[trigger] g.0[k1] < #[trigger] g.0[k2]
            &&& forall|k1: int, k2: int| 0 <= k1 < k2 < g.2.len() ==> #[trigger] g.2[k1] < #[trigger] g.2[k2]
            &&& forall|k1: int, k2: int| 0 <= k1 < k2 < g.3.len() ==> #[trigger] g.3[k1] < #[trigger] g.3[k2]
        }),
    decreases n,
{
    if n > 0 {
        lemma_small_groups_shape(lens, n - 1, pol);
        let gp = small_groups(lens, n - 1, pol);
        let g = small_groups(lens, n, pol);
        let i = (n - 1) as usize;
        let len = lens[n - 1];
        if len == pol.intent_chars {
            assert(g.0 == gp.0.push(i));
            assert(g.0[gp.0.len() as int] == i);
        } else if len == 1 && pol.reserve_single_slots > 0 {
            assert(g.1 == gp.1.push(i));
            assert(g.1[gp.1.len() as int] == i);
        } else if len + 1 == pol.intent_chars {
            assert(g.2 == gp.2.push(i));
            assert(g.2[gp.2.len() as int] == i);
        } else if len < pol.intent_chars {
            assert(g.3 == gp.3.push(i));
            assert(g.3[gp.3.len() as int] == i);
        } else if len == pol.expansion_chars && gp.4.len() < pol.expansion_limit {
            assert(g.4 == gp.4.push(i));
            assert(g.4[gp.4.len() as int] == i);
        }
    }
}

/// In front of a small input, the exact-length candidates come first, then
/// those one character short, then the shorter ones, each kind in list
/// order: of two placed candidates of these kinds, the one of the lower
/// rank, or of the same rank and earlier in the list, is placed first.
pub proof fn lemma_small_input_rank_order(lens: Seq<usize>, pol: SmallInputCandidatePolicy, a: int, b: int)
    requires
        lens.len() <= usize::MAX,
        0 <= a < small_input_layout(lens, pol).len(),
        0 <= b < small_input_layout(lens, pol).len(),
    ensures
        ({
            let r = small_input_layout(lens, pol);
            let ra = small_rank(lens[r[a] as int], pol);
            let rb = small_rank(lens[r[b] as int], pol);
            ra < 3 && rb < 3 && (ra < rb || (ra == rb && r[a] < r[b])) ==> a < b
        }),
{
    let n = lens.len() as int;
    let g = small_groups(lens, n, pol);
    let reserve = min_int(min_int(g.4.len() as int, pol.reserve_tail_slots as int), sat_sub(pol.page_size as int, 1));
    let reserve_single = min_int(
        min_int(g.1.len() as int, pol.reserve_single_slots as int),
        sat_sub(pol.page_size as int, reserve),
    );
    let front_cap = sat_sub(pol.page_size as int, reserve + reserve_single);
    let primary = g.0 + g.2 + g.3;
    let front = min_int(primary.len() as int, front_cap);
    let pa = primary.take(front);
    let pb = g.1.take(reserve_single);
    let pc = g.4;
    let pd = primary.skip(front);
    let pe = g.1.skip(reserve_single);
    let r = small_input_layout(lens, pol);
    assert(r == pa + pb + pc + pd + pe);
    lemma_small_groups_shape(lens, n, pol);
    let rk = |x: usize| small_rank(lens[x as int], pol);
    // primary is ordered by rank, then by position
    assert forall|p1: int, p2: int| 0 <= p1 < p2 < primary.len() implies rk(#[trigger] primary[p1]) < rk(
        #[trigger] primary[p2],
    ) || (rk(primary[p1]) == rk(primary[p2]) && primary[p1] < primary[p2]) by {
        let l0 = g.0.len() as int;
        let l2 = g.2.len() as int;
        if p2 < l0 {
            assert(primary[p1] == g.0[p1] && primary[p2] == g.0[p2]);
        } else if p2 < l0 + l2 {
            assert(primary[p2] == g.2[p2 - l0]);
            if p1 >= l0 {
                assert(primary[p1] == g.2[p1 - l0]);
            } else {
                assert(primary[p1] == g.0[p1]);
            }
        } else {
            assert(primary[p2] == g.3[p2 - l0 - l2]);
            if p1 >= l0 + l2 {
                assert(primary[p1] == g.3[p1 - l0 - l2]);
            } else if p1 >= l0 {
                assert(primary[p1] == g.2[p1 - l0]);
            } else {
                assert(primary[p1] == g.0[p1]);
            }
        }
    }
    assert forall|p: int| 0 <= p < primary.len() implies rk(#[trigger] primary[p]) < 3 by {
        let l0 = g.0.len() as int;
        let l2 = g.2.len() as int;
        if p < l0 {
            assert(primary[p] == g.0[p]);
        } else if p < l0 + l2 {
            assert(primary[p] == g.2[p - l0]);
        } else {
            assert(primary[p] == g.3[p - l0 - l2]);
        }
    }
    let la = pa.len() as int;
    let lb = pb.len() as int;
    let lc = pc.len() as int;
    let ld = pd.len() as int;
    // where a placed candidate of rank below 3 sits in primary
    let pidx = |x: int| if x < la { x } else { x - lb - lc };
    assert forall|x: int| 0 <= x < r.len() && rk(#[trigger] r[x]) < 3 implies (x < la || (la + lb + lc <= x < la + lb
        + lc + ld)) && 0 <= pidx(x) < primary.len() && r[x] == primary[pidx(x)] by {
        if x < la {
            assert(r[x] == pa[x]);
        } else if x < la + lb {
            assert(r[x] == pb[x - la]);
            assert(pb[x - la] == g.1[x - la]);
        } else if x < la + lb + lc {
            assert(r[x] == pc[x - la - lb]);
        } else if x < la + lb + lc + ld {
            assert(r[x] == pd[x - la - lb - lc]);
        } else {
            assert(r[x] == pe[x - la - lb - lc - ld]);
            assert(pe[x - la - lb - lc - ld] == g.1[x - la - lb - lc - ld + reserve_single]);
        }
    }
    if rk(r[a]) < 3 && rk(r[b]) < 3 && (rk(r[a]) < rk(r[b]) || (rk(r[a]) == rk(r[b]) && r[a] < r[b])) {
        let qa = pidx(a);
        let qb = pidx(b);
        if qb < qa {
            assert(rk(primary[qb]) < rk(primary[qa]) || (rk(primary[qb]) == rk(primary[qa]) && primary[qb]
                < primary[qa]));
        }
        assert(qa != qb);
    }
}

fn small_groups_vec(lens: &Vec<usize>, pol: &SmallInputCandidatePolicy) -> (r: (
    Vec<usize>,
    Vec<usize>,
    Vec<usize>,
    Vec<usize>,
    Vec<usize>,
))
    ensures
        (r.0@, r.1@, r.2@, r.3@, r.4@) == small_groups(lens@, lens@.len() as int, *pol),
{
    let mut exact: Vec<usize> = Vec::new();
    let mut single: Vec<usize> = Vec::new();
    let mut near: Vec<usize> = Vec::new();
    let mut far: Vec<usize> = Vec::new();
    let mut expansion: Vec<usize> = Vec::new();
    let mut i: usize = 0;
    while i < lens.len()
        invariant
            i <= lens.len(),
            (exact@, single@, near@, far@, expansion@) == small_groups(lens@, i as int, *pol),
        decreases lens.len() - i,
    {
        let len = lens[i];
        if len == pol.intent_chars {
            exact.push(i);
        } else if len == 1 && pol.reserve_single_slots > 0 {
            single.push(i);
        } else if len < pol.intent_chars && len + 1 == pol.intent_chars {
            near.push(i);
        } else if len < pol.intent_chars {
            far.push(i);
        } else if len == pol.expansion_chars && expansion.len() < pol.expansion_limit {
            expansion.push(i);
        }
        i += 1;
    }
    (exact, single, near, far, expansion)
}

/// The first-page layout of a small input with candidate phrase lengths
/// `lens`, under `pol`.
#[verifier::rlimit(40)]
pub fn arrange_small_input_candidates(lens: &Vec<usize>, pol: &SmallInputCandidatePolicy) -> (r: Vec<usize>)
    ensures
        r@ == small_input_layout(lens@, *pol),
{
    let (exact, single, near, far, expansion) = small_groups_vec(lens, pol);
    let page = pol.page_size;
    let page_less_one: usize = if page > 1 {
        page - 1
    } else {
        0
    };
    let mut reserve = if expansion.len() < pol.reserve_tail_slots {
        expansion.len()
    } else {
        pol.reserve_tail_slots
    };
    if page_less_one < reserve {
        reserve = page_less_one;
    }
    let room: usize = if page > reserve {
        page - reserve
    } else {
        0
    };
    let mut reserve_single = if single.len() < pol.reserve_single_slots {
        single.len()
    } else {
        pol.reserve_single_slots
    };
    if room < reserve_single {
        reserve_single = room;
    }
    let front_cap: usize = if page > reserve + reserve_single {
        page - (reserve + reserve_single)
    } else {
        0
    };
    let mut primary: Vec<usize> = Vec::new();
    append_all(&mut primary, &exact, 0, exact.len());
    append_all(&mut primary, &near, 0, near.len());
    append_all(&mut primary, &far, 0, far.len());
    assert(exact@.subrange(0, exact@.len() as int) =~= exact@);
    assert(near@.subrange(0, near@.len() as int) =~= near@);
    assert(far@.subrange(0, far@.len() as int) =~= far@);
    let front = if primary.len() < front_cap {
        primary.len()
    } else {
        front_cap
    };
    let mut out: Vec<usize> = Vec::new();
    append_all(&mut out, &primary, 0, front);
    append_all(&mut out, &single, 0, reserve_single);
    append_all(&mut out, &expansion, 0, expansion.len());
    append_all(&mut out, &primary, front, primary.len());
    append_all(&mut out, &single, reserve_single, single.len());
    assert(primary@.subrange(0, front as int) =~= primary@.take(front as int));
    assert(single@.subrange(0, reserve_single as int) =~= single@.take(reserve_single as int));
    assert(expansion@.subrange(0, expansion@.len() as int) =~= expansion@);
    assert(primary@.subrange(front as int, primary@.len() as int) =~= primary@.skip(front as int));
    assert(single@.subrange(reserve_single as int, single@.len() as int) =~= single@.skip(reserve_single as int));
    out
}

/// The small-input layout drops candidates but never repeats or invents
/// one: each position appears at most once, and only positions of the
/// input appear.
pub proof fn lemma_small_input_layout_is_selection(lens: Seq<usize>, pol: SmallInputCandidatePolicy)
    ensures
        small_input_layout(lens, pol).to_multiset().subset_of(identity(lens.len()).to_multiset()),
{
    broadcast use {vstd::seq_lib::group_to_multiset_ensures, vstd::multiset::group_multiset_axioms};

    let n = lens.len() as int;
    let g = small_groups(lens, n, pol);
    let reserve = min_int(min_int(g.4.len() as int, pol.reserve_tail_slots as int), sat_sub(pol.page_size as int, 1));
    let reserve_single = min_int(
        min_int(g.1.len() as int, pol.reserve_single_slots as int),
        sat_sub(pol.page_size as int, reserve),
    );
    let front_cap = sat_sub(pol.page_size as int, reserve + reserve_single);
    let primary = g.0 + g.2 + g.3;
    let front = min_int(primary.len() as int, front_cap);
    lemma_small_groups_ms(lens, n, pol);
    lemma_take_skip_ms(primary, front);
    lemma_take_skip_ms(g.1, reserve_single);
    vstd::seq_lib::lemma_multiset_commutative(g.0, g.2);
    vstd::seq_lib::lemma_multiset_commutative(g.0 + g.2, g.3);
    let a = primary.take(front);
    let b = g.1.take(reserve_single);
    let c = g.4;
    let d = primary.skip(front);
    let e = g.1.skip(reserve_single);
    vstd::seq_lib::lemma_multiset_commutative(a, b);
    vstd::seq_lib::lemma_multiset_commutative(a + b, c);
    vstd::seq_lib::lemma_multiset_commutative(a + b + c, d);
    vstd::seq_lib::lemma_multiset_commutative(a + b + c + d, e);
    let out = small_input_layout(lens, pol);
    assert(out == a + b + c + d + e);
    let all = g.0.to_multiset().add(g.1.to_multiset()).add(g.2.to_multiset()).add(g.3.to_multiset()).add(
        g.4.to_multiset(),
    );
    let (ma, mb, mc, md, me) = (a.to_multiset(), b.to_multiset(), c.to_multiset(), d.to_multiset(), e.to_multiset());
    assert forall|x: usize| #[trigger] out.to_multiset().count(x) == all.count(x) by {
        assert(primary.to_multiset().count(x) == ma.count(x) + md.count(x));
        assert(g.1.to_multiset().count(x) == mb.count(x) + me.count(x));
        assert(primary.to_multiset().count(x) == g.0.to_multiset().count(x) + g.2.to_multiset().count(x)
            + g.3.to_multiset().count(x));
    }
    assert(out.to_multiset() =~= all);
}

/// The groups of a small input, together, hold each position at most once.
proof fn lemma_small_groups_ms(lens: Seq<usize>, n: int, pol: SmallInputCandidatePolicy)
    requires
        0 <= n <= lens.len(),
    ensures
        ({
            let g = small_groups(lens, n, pol);
            g.0.to_multiset().add(g.1.to_multiset()).add(g.2.to_multiset()).add(g.3.to_multiset()).add(
                g.4.to_multiset(),
            ).subset_of(identity(n as nat).to_multiset())
        }),
    decreases n,
{
    broadcast use {vstd::seq_lib::group_to_multiset_ensures, vstd::multiset::group_multiset_axioms};

    if n > 0 {
        lemma_small_groups_ms(lens, n - 1, pol);
        assert(identity(n as nat) =~= identity((n - 1) as nat).push((n - 1) as usize));
    }
}

} // verus!
