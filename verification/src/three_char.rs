//! The page layout of a three-letter abbreviation: exact three-character
//! candidates interleaved page by page with shorter ones, by a policy that
//! depends on how clear the exact intent is.
use vstd::prelude::*;
use crate::pagination::{append_all, clamp_page, identity, is_len, min_int, positions_where, positions_with, sat_sub, MAX_PAGE_SIZE};

verus! {

/// The first-page share of exact three-character candidates when the
/// evidence for them is clear.
pub const THREE_CHAR_CONFIDENT_FRONT_MIN: usize = 5;
pub const THREE_CHAR_CONFIDENT_FRONT_MAX: usize = 7;

/// How a three-letter abbreviation fills its pages: how many exact
/// three-character candidates the first and later pages may hold, and how
/// many two-character candidates they reserve.
#[derive(Clone, Copy, Debug)]
pub struct ThreeCharDensityPolicy {
    pub first_exact_cap: usize,
    pub later_exact_cap: usize,
    pub first_two_char_quota: usize,
    pub later_two_char_quota: usize,
}

pub open spec fn policy_view(p: ThreeCharDensityPolicy) -> (usize, usize, usize, usize) {
    (p.first_exact_cap, p.later_exact_cap, p.first_two_char_quota, p.later_two_char_quota)
}

/// The policy from the evidence for the exact candidates: locked (a user
/// phrase or a full-pinyin match among them) gives seven per page and one
/// two-character slot; clear evidence (a clear score margin, or frequent
/// exact phrases) gives five to seven on the first page as the evidence
/// reaches, at least six later, and one two-character slot; otherwise
/// three, then four, with three and then two two-character slots.
pub fn three_char_density_policy(
    locked: bool,
    clear_score_margin: bool,
    strong_frequency_count: usize,
    competitive_exact_count: usize,
) -> (r: ThreeCharDensityPolicy)
    ensures
        policy_view(r) == (if locked {
            (THREE_CHAR_CONFIDENT_FRONT_MAX, THREE_CHAR_CONFIDENT_FRONT_MAX, 1usize, 1usize)
        } else if clear_score_margin || strong_frequency_count > 0 {
            let from_strength = THREE_CHAR_CONFIDENT_FRONT_MIN + sat_sub(strong_frequency_count as int, 1);
            let evidence = if competitive_exact_count > from_strength {
                competitive_exact_count as int
            } else {
                from_strength
            };
            let first = clamp_int3(evidence, THREE_CHAR_CONFIDENT_FRONT_MIN as int, THREE_CHAR_CONFIDENT_FRONT_MAX as int);
            (first as usize, (if first > 6 {
                first
            } else {
                6
            }) as usize, 1usize, 1usize)
        } else {
            (3usize, 4usize, 3usize, 2usize)
        }),
{
    if locked {
        return ThreeCharDensityPolicy {
            first_exact_cap: THREE_CHAR_CONFIDENT_FRONT_MAX,
            later_exact_cap: THREE_CHAR_CONFIDENT_FRONT_MAX,
            first_two_char_quota: 1,
            later_two_char_quota: 1,
        };
    }
    if clear_score_margin || strong_frequency_count > 0 {
        let extra: usize = if strong_frequency_count > 0 {
            strong_frequency_count - 1
        } else {
            0
        };
        let from_strength: usize = if extra > usize::MAX - THREE_CHAR_CONFIDENT_FRONT_MIN {
            usize::MAX
        } else {
            THREE_CHAR_CONFIDENT_FRONT_MIN + extra
        };
        let evidence = if competitive_exact_count > from_strength {
            competitive_exact_count
        } else {
            from_strength
        };
        let first = if evidence < THREE_CHAR_CONFIDENT_FRONT_MIN {
            THREE_CHAR_CONFIDENT_FRONT_MIN
        } else if evidence > THREE_CHAR_CONFIDENT_FRONT_MAX {
            THREE_CHAR_CONFIDENT_FRONT_MAX
        } else {
            evidence
        };
        return ThreeCharDensityPolicy {
            first_exact_cap: first,
            later_exact_cap: if first > 6 {
                first
            } else {
                6
            },
            first_two_char_quota: 1,
            later_two_char_quota: 1,
        };
    }
    ThreeCharDensityPolicy { first_exact_cap: 3, later_exact_cap: 4, first_two_char_quota: 3, later_two_char_quota: 2 }
}

pub open spec fn clamp_int3(v: int, lo: int, hi: int) -> int {
    if v < lo {
        lo
    } else if v > hi {
        hi
    } else {
        v
    }
}

/// The candidates still to be placed: exact three-character ones, two-
/// character ones, single characters, and the others.
pub type Queues = (Seq<usize>, Seq<usize>, Seq<usize>, Seq<usize>);

pub open spec fn queues_len(q: Queues) -> nat {
    q.0.len() + q.1.len() + q.2.len() + q.3.len()
}

pub open spec fn ceil_div(a: int, b: int) -> int {
    if b <= 0 {
        0
    } else {
        (a + b - 1) / b
    }
}

/// The queue the next free slot of a page takes from (0 exact, 1 two-
/// character, 2 single, 3 other; 4 when all are empty): exact ones while the
/// page holds fewer than its cap of them; then others; then two-character
/// or single ones that later pages cannot absorb; then exact, two-character
/// and single ones in that order.
pub open spec fn next_source(q: Queues, page_exact: int, exact_cap: int, later_exact_cap: int, later_two: int) -> int {
    let future_cap = if later_exact_cap <= 0 {
        1
    } else {
        later_exact_cap
    };
    let future_pages = ceil_div(q.0.len() as int, future_cap);
    let surplus_two = q.1.len() > future_pages * later_two;
    let surplus_single = q.2.len() > future_pages;
    if page_exact < exact_cap && q.0.len() > 0 {
        0
    } else if q.3.len() > 0 {
        3
    } else if surplus_two && q.1.len() > 0 {
        1
    } else if surplus_single && q.2.len() > 0 {
        2
    } else if q.0.len() > 0 {
        0
    } else if q.1.len() > 0 {
        1
    } else if q.2.len() > 0 {
        2
    } else {
        4
    }
}

pub open spec fn take_from(q: Queues, src: int) -> (usize, Queues) {
    if src == 0 {
        (q.0[0], (q.0.skip(1), q.1, q.2, q.3))
    } else if src == 1 {
        (q.1[0], (q.0, q.1.skip(1), q.2, q.3))
    } else if src == 2 {
        (q.2[0], (q.0, q.1, q.2.skip(1), q.3))
    } else {
        (q.3[0], (q.0, q.1, q.2, q.3.skip(1)))
    }
}

/// The free slots of a page filled one at a time from `next_source`; also
/// what is left to place.
pub open spec fn fill_page(
    q: Queues,
    slots: int,
    page_exact: int,
    exact_cap: int,
    later_exact_cap: int,
    later_two: int,
) -> (Seq<usize>, Queues)
    decreases slots,
{
    if slots <= 0 {
        (Seq::empty(), q)
    } else {
        let src = next_source(q, page_exact, exact_cap, later_exact_cap, later_two);
        if src == 4 {
            (Seq::empty(), q)
        } else {
            let t = take_from(q, src);
            let rest = fill_page(
                t.1,
                slots - 1,
                if src == 0 {
                    page_exact + 1
                } else {
                    page_exact
                },
                exact_cap,
                later_exact_cap,
                later_two,
            );
            (seq![t.0] + rest.0, rest.1)
        }
    }
}

/// The head of page `idx`, once `done` candidates are placed: its exact
/// cap; the numbers of exact, two-character and single candidates placed
/// by quota; and where the page ends.
pub open spec fn page_plan(q: Queues, idx: int, done: int, total: int, page: int, pol: ThreeCharDensityPolicy) -> (
    int,
    int,
    int,
    int,
    int,
) {
    let page_start = idx * page;
    let page_end = min_int((idx + 1) * page, total);
    let cap = sat_sub(page_end, page_start);
    let sq = min_int(if q.2.len() > 0 {
        1
    } else {
        0
    }, cap);
    let ns = sat_sub(cap, sq);
    let ecap = min_int(if idx == 0 {
        pol.first_exact_cap as int
    } else {
        pol.later_exact_cap as int
    }, ns);
    let eq = min_int(ecap, q.0.len() as int);
    let tq = min_int(min_int(if idx == 0 {
        pol.first_two_char_quota as int
    } else {
        pol.later_two_char_quota as int
    }, sat_sub(ns, eq)), q.1.len() as int);
    (ecap, eq, tq, sq, page_end)
}

/// Page `idx` and the pages after it: each page first takes its quotas of
/// exact, two-character and single candidates, then fills its free slots
/// from `next_source`; the layout ends once a page takes nothing.
pub open spec fn three_pages(
    q: Queues,
    idx: int,
    done: int,
    total: int,
    page: int,
    pol: ThreeCharDensityPolicy,
) -> Seq<usize>
    decreases queues_len(q),
    via three_pages_decreases
{
    if idx < 0 || page <= 0 {
        Seq::empty()
    } else {
        let plan = page_plan(q, idx, done, total, page, pol);
        let head = q.0.take(plan.1) + q.1.take(plan.2) + q.2.take(plan.3);
        let q1 = (q.0.skip(plan.1), q.1.skip(plan.2), q.2.skip(plan.3), q.3);
        let fill = fill_page(
            q1,
            plan.4 - (done + head.len()),
            plan.1,
            plan.0,
            pol.later_exact_cap as int,
            pol.later_two_char_quota as int,
        );
        if head.len() + fill.0.len() == 0 {
            Seq::empty()
        } else {
            head + fill.0 + three_pages(fill.1, idx + 1, done + head.len() + fill.0.len(), total, page, pol)
        }
    }
}

proof fn lemma_fill_sizes(q: Queues, slots: int, pe: int, ecap: int, lc: int, lt: int)
    ensures
        queues_len(fill_page(q, slots, pe, ecap, lc, lt).1) + fill_page(q, slots, pe, ecap, lc, lt).0.len()
            == queues_len(q),
        fill_page(q, slots, pe, ecap, lc, lt).0.len() <= if slots < 0 {
            0
        } else {
            slots
        },
        fill_page(q, slots, pe, ecap, lc, lt).0.len() < slots ==> queues_len(fill_page(q, slots, pe, ecap, lc, lt).1)
            == 0,
    decreases slots,
{
    if slots > 0 {
        let src = next_source(q, pe, ecap, lc, lt);
        if src != 4 {
            let t = take_from(q, src);
            lemma_fill_sizes(t.1, slots - 1, if src == 0 {
                pe + 1
            } else {
                pe
            }, ecap, lc, lt);
        }
    }
}

#[via_fn]
proof fn three_pages_decreases(q: Queues, idx: int, done: int, total: int, page: int, pol: ThreeCharDensityPolicy) {
    if !(idx < 0 || page <= 0) {
        let plan = page_plan(q, idx, done, total, page, pol);
        let head = q.0.take(plan.1) + q.1.take(plan.2) + q.2.take(plan.3);
        let q1 = (q.0.skip(plan.1), q.1.skip(plan.2), q.2.skip(plan.3), q.3);
        let slots = plan.4 - (done + head.len());
        lemma_fill_sizes(q1, slots, plan.1, plan.0, pol.later_exact_cap as int, pol.later_two_char_quota as int);
    }
}

pub open spec fn is_other3_len() -> spec_fn(usize) -> bool {
    |l: usize| l != 1 && l != 2 && l != 3
}

/// The three-character layout: with more than one candidate, the pages of
/// `three_pages` over the exact three-character, two-character, single and
/// other candidates, each class in list order.
pub open spec fn three_char_density(lens: Seq<usize>, page_size: usize, pol: ThreeCharDensityPolicy) -> Seq<usize> {
    let n = lens.len() as int;
    if n <= 1 {
        identity(lens.len())
    } else {
        let q = (
            positions_where(lens, n, is_len(3)),
            positions_where(lens, n, is_len(2)),
            positions_where(lens, n, is_len(1)),
            positions_where(lens, n, is_other3_len()),
        );
        three_pages(q, 0, 0, n, clamp_page(page_size), pol)
    }
}

fn positions_other3(lens: &Vec<usize>) -> (r: Vec<usize>)
    ensures
        r@ == positions_where(lens@, lens@.len() as int, is_other3_len()),
{
    let mut out: Vec<usize> = Vec::new();
    let mut i: usize = 0;
    while i < lens.len()
        invariant
            i <= lens.len(),
            out@ == positions_where(lens@, i as int, is_other3_len()),
        decreases lens.len() - i,
    {
        let l = lens[i];
        if l != 1 && l != 2 && l != 3 {
            out.push(i);
        }
        i += 1;
    }
    out
}

fn sat_mul(a: usize, b: usize) -> (r: usize)
    ensures
        r as int == (if a * b > usize::MAX {
            usize::MAX as int
        } else {
            a * b
        }),
{
    if b != 0 && a > usize::MAX / b {
        assert(a * b > usize::MAX) by (nonlinear_arith)
            requires
                b != 0,
                a > usize::MAX / b,
        ;
        usize::MAX
    } else {
        assert(a * b <= usize::MAX) by (nonlinear_arith)
            requires
                b == 0 || a <= usize::MAX / b,
        ;
        a * b
    }
}

fn next_source_exec(e: usize, t: usize, s: usize, r: usize, page_exact: usize, exact_cap: usize, lc: usize, lt: usize) -> (res: usize)
    ensures
        forall|q: Queues|
            q.0.len() == e && q.1.len() == t && q.2.len() == s && q.3.len() == r ==> res as int == next_source(
                q,
                page_exact as int,
                exact_cap as int,
                lc as int,
                lt as int,
            ),
{
    let future_cap: usize = if lc == 0 {
        1
    } else {
        lc
    };
    let quot = e / future_cap;
    let remainder = e % future_cap;
    let future_pages: usize = if remainder != 0 {
        assert(quot <= e / 2) by (nonlinear_arith)
            requires
                future_cap >= 2,
                quot == e / future_cap,
        ;
        quot + 1
    } else {
        quot
    };
    assert(future_pages as int == ceil_div(e as int, future_cap as int)) by (nonlinear_arith)
        requires
            future_cap >= 1,
            quot == e / future_cap,
            remainder == e % future_cap,
            future_pages == if remainder != 0 {
                quot + 1
            } else {
                quot as int
            },
    ;
    let product = sat_mul(future_pages, lt);
    let surplus_two = t > product;
    let surplus_single = s > future_pages;
    if page_exact < exact_cap && e > 0 {
        0
    } else if r > 0 {
        3
    } else if surplus_two && t > 0 {
        1
    } else if surplus_single && s > 0 {
        2
    } else if e > 0 {
        0
    } else if t > 0 {
        1
    } else if s > 0 {
        2
    } else {
        4
    }
}

pub open spec fn cur_queues(e: Seq<usize>, t: Seq<usize>, s: Seq<usize>, r: Seq<usize>, c: (usize, usize, usize, usize)) -> Queues {
    (e.skip(c.0 as int), t.skip(c.1 as int), s.skip(c.2 as int), r.skip(c.3 as int))
}

pub open spec fn cursors_ok(e: Seq<usize>, t: Seq<usize>, s: Seq<usize>, r: Seq<usize>, c: (usize, usize, usize, usize)) -> bool {
    c.0 <= e.len() && c.1 <= t.len() && c.2 <= s.len() && c.3 <= r.len()
}

/// Fills the free slots of a page, from `next_source`.
fn fill_slots(
    ev: &Vec<usize>,
    tv: &Vec<usize>,
    sv: &Vec<usize>,
    rv: &Vec<usize>,
    out: &mut Vec<usize>,
    c: (usize, usize, usize, usize),
    page_end: usize,
    page_exact: usize,
    ecap: usize,
    pol: &ThreeCharDensityPolicy,
) -> (r: (usize, usize, usize, usize))
    requires
        cursors_ok(ev@, tv@, sv@, rv@, c),
        page_exact <= old(out).len(),
    ensures
        cursors_ok(ev@, tv@, sv@, rv@, r),
        ({
            let f = fill_page(
                cur_queues(ev@, tv@, sv@, rv@, c),
                page_end - old(out).len(),
                page_exact as int,
                ecap as int,
                pol.later_exact_cap as int,
                pol.later_two_char_quota as int,
            );
            final(out)@ == old(out)@ + f.0 && cur_queues(ev@, tv@, sv@, rv@, r) == f.1
        }),
{
    let ghost start = out@;
    let ghost goal = fill_page(
        cur_queues(ev@, tv@, sv@, rv@, c),
        page_end - out.len(),
        page_exact as int,
        ecap as int,
        pol.later_exact_cap as int,
        pol.later_two_char_quota as int,
    );
    let (mut ei, mut ti, mut si, mut ri) = c;
    let mut pe = page_exact;
    let mut stop = false;
    let ghost mut rem: int = page_end - out.len();
    while !stop && out.len() < page_end
        invariant
            cursors_ok(ev@, tv@, sv@, rv@, (ei, ti, si, ri)),
            start.len() <= out.len(),
            out@.take(start.len() as int) == start,
            pe <= out.len(),
            rem == if stop {
                0
            } else {
                page_end - out.len()
            },
            goal == ({
                let f = fill_page(
                    cur_queues(ev@, tv@, sv@, rv@, (ei, ti, si, ri)),
                    rem,
                    pe as int,
                    ecap as int,
                    pol.later_exact_cap as int,
                    pol.later_two_char_quota as int,
                );
                (out@.skip(start.len() as int) + f.0, f.1)
            }),
        decreases page_end - out.len() + if stop {
            0int
        } else {
            1int
        },
    {
        let ghost qc = cur_queues(ev@, tv@, sv@, rv@, (ei, ti, si, ri));
        let src = next_source_exec(
            ev.len() - ei,
            tv.len() - ti,
            sv.len() - si,
            rv.len() - ri,
            pe,
            ecap,
            pol.later_exact_cap,
            pol.later_two_char_quota,
        );
        let ghost before = out@;
        if src == 4 {
            stop = true;
            proof {
                rem = 0;
            }
        } else {
            let ghost old_c = (ei, ti, si, ri);
            let ghost pe_old = pe as int;
            let pushed: usize;
            if src == 0 {
                pushed = ev[ei];
                ei += 1;
            } else if src == 1 {
                pushed = tv[ti];
                ti += 1;
            } else if src == 2 {
                pushed = sv[si];
                si += 1;
            } else {
                pushed = rv[ri];
                ri += 1;
            }
            out.push(pushed);
            if src == 0 {
                pe += 1;
            }
            proof {
                let qn = cur_queues(ev@, tv@, sv@, rv@, (ei, ti, si, ri));
                let t = take_from(qc, src as int);
                assert(t.0 == pushed);
                assert(qn =~= t.1) by {
                    assert(ev@.skip(ei as int) =~= (if src == 0 {
                        qc.0.skip(1)
                    } else {
                        qc.0
                    }));
                    assert(tv@.skip(ti as int) =~= (if src == 1 {
                        qc.1.skip(1)
                    } else {
                        qc.1
                    }));
                    assert(sv@.skip(si as int) =~= (if src == 2 {
                        qc.2.skip(1)
                    } else {
                        qc.2
                    }));
                    assert(rv@.skip(ri as int) =~= (if src == 3 {
                        qc.3.skip(1)
                    } else {
                        qc.3
                    }));
                }
                assert(out@.skip(start.len() as int) =~= before.skip(start.len() as int).push(pushed));
                let f = fill_page(qn, rem - 1, pe as int, ecap as int, pol.later_exact_cap as int, pol.later_two_char_quota as int);
                assert(fill_page(qc, rem, pe_old, ecap as int, pol.later_exact_cap as int, pol.later_two_char_quota as int)
                    == (seq![pushed] + f.0, f.1));
                assert(before.skip(start.len() as int) + (seq![pushed] + f.0) =~= out@.skip(start.len() as int) + f.0);
                assert(out@.take(start.len() as int) =~= start);
                rem = rem - 1;
            }
        }
    }
    proof {
        assert(rem <= 0);
        assert(out@.skip(start.len() as int) + Seq::<usize>::empty() =~= out@.skip(start.len() as int));
        assert(out@ =~= start + out@.skip(start.len() as int));
    }
    (ei, ti, si, ri)
}

pub open spec fn remaining(e: Seq<usize>, t: Seq<usize>, s: Seq<usize>, r: Seq<usize>, c: (usize, usize, usize, usize)) -> int {
    (e.len() - c.0) + (t.len() - c.1) + (s.len() - c.2) + (r.len() - c.3)
}

/// The quotas of page `idx` for the given queue lengths.
fn page_quotas(idx: usize, p: usize, n: usize, e: usize, t: usize, s: usize, pol: &ThreeCharDensityPolicy) -> (r: (
    usize,
    usize,
    usize,
    usize,
    usize,
))
    requires
        3 <= p <= MAX_PAGE_SIZE,
        idx < usize::MAX,
    ensures
        forall|q: Queues, done: int|
            q.0.len() == e && q.1.len() == t && q.2.len() == s ==> page_plan(q, idx as int, done, n as int, p as int, *pol)
                == (r.0 as int, r.1 as int, r.2 as int, r.3 as int, r.4 as int),
        r.1 <= e,
        r.2 <= t,
        r.3 <= s,
{
    let page_start = sat_mul(idx, p);
    let page_end_raw = sat_mul(idx + 1, p);
    let page_end = if page_end_raw < n {
        page_end_raw
    } else {
        n
    };
    proof {
        if idx * p > usize::MAX {
            assert((idx + 1) * p > usize::MAX) by (nonlinear_arith)
                requires
                    idx * p > usize::MAX,
                    p >= 3,
            ;
        }
        assert((idx + 1) * p == idx * p + p) by (nonlinear_arith);
    }
    let cap: usize = if page_end > page_start {
        page_end - page_start
    } else {
        0
    };
    let sq: usize = if s > 0 && cap > 0 {
        1
    } else {
        0
    };
    let ns = cap - sq;
    let ecap0 = if idx == 0 {
        pol.first_exact_cap
    } else {
        pol.later_exact_cap
    };
    let ecap = if ecap0 < ns {
        ecap0
    } else {
        ns
    };
    let eq = if ecap < e {
        ecap
    } else {
        e
    };
    let tq0 = if idx == 0 {
        pol.first_two_char_quota
    } else {
        pol.later_two_char_quota
    };
    let tq1 = if tq0 < ns - eq {
        tq0
    } else {
        ns - eq
    };
    let tq = if tq1 < t {
        tq1
    } else {
        t
    };
    (ecap, eq, tq, sq, page_end)
}

/// Places page `idx`: its quotas, then its free slots.
fn place_page(
    ev: &Vec<usize>,
    tv: &Vec<usize>,
    sv: &Vec<usize>,
    rv: &Vec<usize>,
    out: &mut Vec<usize>,
    c: (usize, usize, usize, usize),
    idx: usize,
    n: usize,
    p: usize,
    pol: &ThreeCharDensityPolicy,
) -> (r: (usize, usize, usize, usize))
    requires
        cursors_ok(ev@, tv@, sv@, rv@, c),
        3 <= p <= MAX_PAGE_SIZE,
        idx < usize::MAX,
    ensures
        cursors_ok(ev@, tv@, sv@, rv@, r),
        ({
            let q = cur_queues(ev@, tv@, sv@, rv@, c);
            let done = old(out).len() as int;
            let plan = page_plan(q, idx as int, done, n as int, p as int, *pol);
            let head = q.0.take(plan.1) + q.1.take(plan.2) + q.2.take(plan.3);
            let q1 = (q.0.skip(plan.1), q.1.skip(plan.2), q.2.skip(plan.3), q.3);
            let fill = fill_page(
                q1,
                plan.4 - (done + head.len()),
                plan.1,
                plan.0,
                pol.later_exact_cap as int,
                pol.later_two_char_quota as int,
            );
            final(out)@ == old(out)@ + head + fill.0 && cur_queues(ev@, tv@, sv@, rv@, r) == fill.1
        }),
{
    let ghost q = cur_queues(ev@, tv@, sv@, rv@, c);
    let ghost done = out.len() as int;
    let ghost plan = page_plan(q, idx as int, done, n as int, p as int, *pol);
    let (ei, ti, si, ri) = c;
    let (ecap, eq, tq, sq, page_end) = page_quotas(idx, p, n, ev.len() - ei, tv.len() - ti, sv.len() - si, pol);
    assert(plan == (ecap as int, eq as int, tq as int, sq as int, page_end as int));
    let ghost start = out@;
    append_all(out, ev, ei, ei + eq);
    append_all(out, tv, ti, ti + tq);
    append_all(out, sv, si, si + sq);
    let ghost head = q.0.take(plan.1) + q.1.take(plan.2) + q.2.take(plan.3);
    assert(ev@.subrange(ei as int, ei + eq) =~= q.0.take(eq as int));
    assert(tv@.subrange(ti as int, ti + tq) =~= q.1.take(tq as int));
    assert(sv@.subrange(si as int, si + sq) =~= q.2.take(sq as int));
    assert(out@ =~= start + head);
    let c1 = (ei + eq, ti + tq, si + sq, ri);
    assert(cur_queues(ev@, tv@, sv@, rv@, c1) =~= (q.0.skip(plan.1), q.1.skip(plan.2), q.2.skip(plan.3), q.3)) by {
        assert(ev@.skip(ei + eq) =~= q.0.skip(plan.1));
        assert(tv@.skip(ti + tq) =~= q.1.skip(plan.2));
        assert(sv@.skip(si + sq) =~= q.2.skip(plan.3));
    }
    let ghost mid = out@;
    let r = fill_slots(ev, tv, sv, rv, out, c1, page_end, eq, ecap, pol);
    assert(out@ =~= start + head + (out@.skip(mid.len() as int))) by {
        assert(out@.skip(mid.len() as int) =~= out@.subrange(mid.len() as int, out@.len() as int));
    }
    r
}

proof fn lemma_partition4_len(lens: Seq<usize>, n: int)
    requires
        0 <= n <= lens.len(),
    ensures
        positions_where(lens, n, is_len(3)).len() + positions_where(lens, n, is_len(2)).len() + positions_where(
            lens,
            n,
            is_len(1),
        ).len() + positions_where(lens, n, is_other3_len()).len() == n,
    decreases n,
{
    if n > 0 {
        lemma_partition4_len(lens, n - 1);
    }
}

proof fn lemma_three_pages_empty(q: Queues, idx: int, done: int, total: int, page: int, pol: ThreeCharDensityPolicy)
    requires
        queues_len(q) == 0,
    ensures
        three_pages(q, idx, done, total, page, pol) == Seq::<usize>::empty(),
{
    if !(idx < 0 || page <= 0) {
        let plan = page_plan(q, idx, done, total, page, pol);
        let head = q.0.take(plan.1) + q.1.take(plan.2) + q.2.take(plan.3);
        assert(head.len() == 0);
        let q1 = (q.0.skip(plan.1), q.1.skip(plan.2), q.2.skip(plan.3), q.3);
        let slots = plan.4 - (done + head.len());
        lemma_fill_sizes(q1, slots, plan.1, plan.0, pol.later_exact_cap as int, pol.later_two_char_quota as int);
    }
}

/// The three-character page layout of candidates with phrase lengths
/// `lens`, under `pol`.
pub fn arrange_three_char_intent_page_density(lens: &Vec<usize>, page_size: usize, pol: &ThreeCharDensityPolicy) -> (r:
    Vec<usize>)
    ensures
        r@ == three_char_density(lens@, page_size, *pol),
{
    let n = lens.len();
    if n <= 1 {
        let mut id: Vec<usize> = Vec::new();
        if n == 1 {
            id.push(0);
        }
        assert(id@ =~= identity(n as nat));
        return id;
    }
    let p: usize = if page_size < 3 {
        3
    } else if page_size > MAX_PAGE_SIZE {
        MAX_PAGE_SIZE
    } else {
        page_size
    };
    let ev = positions_with(lens, Ghost(is_len(3)), 3, false);
    let tv = positions_with(lens, Ghost(is_len(2)), 2, false);
    let sv = positions_with(lens, Ghost(is_len(1)), 1, false);
    let rv = positions_other3(lens);
    proof {
        lemma_partition4_len(lens@, n as int);
    }
    let ghost q0: Queues = (ev@, tv@, sv@, rv@);
    let mut c: (usize, usize, usize, usize) = (0, 0, 0, 0);
    assert(cur_queues(ev@, tv@, sv@, rv@, c) =~= q0) by {
        assert(ev@.skip(0) =~= ev@);
        assert(tv@.skip(0) =~= tv@);
        assert(sv@.skip(0) =~= sv@);
        assert(rv@.skip(0) =~= rv@);
    }
    let ghost goal = three_pages(q0, 0, 0, n as int, p as int, *pol);
    let mut out: Vec<usize> = Vec::new();
    let mut idx: usize = 0;
    let mut finished = false;
    while !finished && out.len() < n
        invariant
            3 <= p <= MAX_PAGE_SIZE,
            cursors_ok(ev@, tv@, sv@, rv@, c),
            idx <= out.len(),
            out.len() + remaining(ev@, tv@, sv@, rv@, c) == n,
            !finished ==> goal == out@ + three_pages(
                cur_queues(ev@, tv@, sv@, rv@, c),
                idx as int,
                out.len() as int,
                n as int,
                p as int,
                *pol,
            ),
            finished ==> goal == out@,
        decreases remaining(ev@, tv@, sv@, rv@, c) + if finished {
            0int
        } else {
            1int
        },
    {
        let ghost q = cur_queues(ev@, tv@, sv@, rv@, c);
        let ghost done = out.len() as int;
        let before_len = out.len();
        let c2 = place_page(&ev, &tv, &sv, &rv, &mut out, c, idx, n, p, pol);
        proof {
            let plan = page_plan(q, idx as int, done, n as int, p as int, *pol);
            let head = q.0.take(plan.1) + q.1.take(plan.2) + q.2.take(plan.3);
            let q1 = (q.0.skip(plan.1), q.1.skip(plan.2), q.2.skip(plan.3), q.3);
            let slots = plan.4 - (done + head.len());
            lemma_fill_sizes(q1, slots, plan.1, plan.0, pol.later_exact_cap as int, pol.later_two_char_quota as int);
            assert(queues_len(q) == remaining(ev@, tv@, sv@, rv@, c));
            assert(queues_len(cur_queues(ev@, tv@, sv@, rv@, c2)) == remaining(ev@, tv@, sv@, rv@, c2));
            assert(queues_len(q1) + head.len() == queues_len(q));
        }
        if out.len() == before_len {
            finished = true;
        } else {
            idx += 1;
        }
        c = c2;
    }
    proof {
        if !finished {
            assert(queues_len(cur_queues(ev@, tv@, sv@, rv@, c)) == remaining(ev@, tv@, sv@, rv@, c));
            lemma_three_pages_empty(cur_queues(ev@, tv@, sv@, rv@, c), idx as int, out.len() as int, n as int, p as int, *pol);
            assert(out@ + Seq::<usize>::empty() =~= out@);
        }
    }
    out
}

pub open spec fn queues_ms(q: Queues) -> vstd::multiset::Multiset<usize> {
    q.0.to_multiset().add(q.1.to_multiset()).add(q.2.to_multiset()).add(q.3.to_multiset())
}

proof fn lemma_take_skip_ms3(s: Seq<usize>, k: int)
    requires
        0 <= k <= s.len(),
    ensures
        s.to_multiset() == s.take(k).to_multiset().add(s.skip(k).to_multiset()),
{
    broadcast use {vstd::seq_lib::group_to_multiset_ensures, vstd::multiset::group_multiset_axioms};

    assert(s =~= s.take(k) + s.skip(k));
    vstd::seq_lib::lemma_multiset_commutative(s.take(k), s.skip(k));
}

/// Filling a page moves candidates out of the queues, losing none.
proof fn lemma_fill_ms(q: Queues, slots: int, pe: int, ecap: int, lc: int, lt: int)
    ensures
        fill_page(q, slots, pe, ecap, lc, lt).0.to_multiset().add(queues_ms(fill_page(q, slots, pe, ecap, lc, lt).1))
            == queues_ms(q),
    decreases slots,
{
    broadcast use {vstd::seq_lib::group_to_multiset_ensures, vstd::multiset::group_multiset_axioms};

    let f = fill_page(q, slots, pe, ecap, lc, lt);
    if slots <= 0 || next_source(q, pe, ecap, lc, lt) == 4 {
        assert(f.0.to_multiset() =~= vstd::multiset::Multiset::empty());
        assert(f.0.to_multiset().add(queues_ms(f.1)) =~= queues_ms(q));
    } else {
        let src = next_source(q, pe, ecap, lc, lt);
        let t = take_from(q, src);
        let pe1 = if src == 0 {
            pe + 1
        } else {
            pe
        };
        lemma_fill_ms(t.1, slots - 1, pe1, ecap, lc, lt);
        let rest = fill_page(t.1, slots - 1, pe1, ecap, lc, lt);
        vstd::seq_lib::lemma_multiset_commutative(seq![t.0], rest.0);
        let x = t.0;
        if src == 0 {
            lemma_take_skip_ms3(q.0, 1);
            assert(q.0.take(1) =~= seq![x]);
        } else if src == 1 {
            lemma_take_skip_ms3(q.1, 1);
            assert(q.1.take(1) =~= seq![x]);
        } else if src == 2 {
            lemma_take_skip_ms3(q.2, 1);
            assert(q.2.take(1) =~= seq![x]);
        } else {
            lemma_take_skip_ms3(q.3, 1);
            assert(q.3.take(1) =~= seq![x]);
        }
        assert(f.0 == seq![x] + rest.0);
        assert forall|v: usize| #[trigger] f.0.to_multiset().add(queues_ms(f.1)).count(v) == queues_ms(q).count(v) by {
            assert(rest.0.to_multiset().add(queues_ms(rest.1)).count(v) == queues_ms(t.1).count(v));
        }
        assert(f.0.to_multiset().add(queues_ms(f.1)) =~= queues_ms(q));
    }
}

/// A page with free slots and candidates left takes at least one.
proof fn lemma_fill_takes_one(q: Queues, slots: int, pe: int, ecap: int, lc: int, lt: int)
    requires
        slots >= 1,
        queues_len(q) > 0,
    ensures
        fill_page(q, slots, pe, ecap, lc, lt).0.len() >= 1,
{
    assert(next_source(q, pe, ecap, lc, lt) != 4);
}

/// The pages from an aligned start place every remaining candidate exactly
/// once.
proof fn lemma_three_pages_ms(q: Queues, idx: int, done: int, total: int, page: int, pol: ThreeCharDensityPolicy)
    requires
        idx >= 0,
        page >= 1,
        done + queues_len(q) == total,
        done == idx * page || queues_len(q) == 0,
    ensures
        three_pages(q, idx, done, total, page, pol).to_multiset() == queues_ms(q),
    decreases queues_len(q),
{
    broadcast use {vstd::seq_lib::group_to_multiset_ensures, vstd::multiset::group_multiset_axioms};

    if queues_len(q) == 0 {
        lemma_three_pages_empty(q, idx, done, total, page, pol);
        assert(q.0.to_multiset() =~= vstd::multiset::Multiset::empty());
        assert(q.1.to_multiset() =~= vstd::multiset::Multiset::empty());
        assert(q.2.to_multiset() =~= vstd::multiset::Multiset::empty());
        assert(q.3.to_multiset() =~= vstd::multiset::Multiset::empty());
        assert(Seq::<usize>::empty().to_multiset() =~= queues_ms(q));
    } else {
        let plan = page_plan(q, idx, done, total, page, pol);
        let head = q.0.take(plan.1) + q.1.take(plan.2) + q.2.take(plan.3);
        let q1 = (q.0.skip(plan.1), q.1.skip(plan.2), q.2.skip(plan.3), q.3);
        let slots = plan.4 - (done + head.len());
        let lc = pol.later_exact_cap as int;
        let lt = pol.later_two_char_quota as int;
        let fill = fill_page(q1, slots, plan.1, plan.0, lc, lt);
        assert((idx + 1) * page == idx * page + page) by (nonlinear_arith);
        assert(head.len() == plan.1 + plan.2 + plan.3);
        lemma_fill_sizes(q1, slots, plan.1, plan.0, lc, lt);
        lemma_fill_ms(q1, slots, plan.1, plan.0, lc, lt);
        if head.len() == 0 {
            assert(queues_len(q1) == queues_len(q));
            lemma_fill_takes_one(q1, slots, plan.1, plan.0, lc, lt);
        }
        let done2 = done + head.len() + fill.0.len();
        lemma_three_pages_ms(fill.1, idx + 1, done2, total, page, pol);
        let rest = three_pages(fill.1, idx + 1, done2, total, page, pol);
        assert(three_pages(q, idx, done, total, page, pol) == head + fill.0 + rest);
        lemma_take_skip_ms3(q.0, plan.1);
        lemma_take_skip_ms3(q.1, plan.2);
        lemma_take_skip_ms3(q.2, plan.3);
        vstd::seq_lib::lemma_multiset_commutative(q.0.take(plan.1), q.1.take(plan.2));
        vstd::seq_lib::lemma_multiset_commutative(q.0.take(plan.1) + q.1.take(plan.2), q.2.take(plan.3));
        vstd::seq_lib::lemma_multiset_commutative(head, fill.0);
        vstd::seq_lib::lemma_multiset_commutative(head + fill.0, rest);
        let out = head + fill.0 + rest;
        assert forall|v: usize| #[trigger] out.to_multiset().count(v) == queues_ms(q).count(v) by {
            assert(fill.0.to_multiset().add(queues_ms(fill.1)).count(v) == queues_ms(q1).count(v));
            assert(rest.to_multiset().count(v) == queues_ms(fill.1).count(v));
        }
        assert(out.to_multiset() =~= queues_ms(q));
    }
}

proof fn lemma_partition4(lens: Seq<usize>, n: int)
    requires
        0 <= n <= lens.len(),
    ensures
        queues_ms(
            (
                positions_where(lens, n, is_len(3)),
                positions_where(lens, n, is_len(2)),
                positions_where(lens, n, is_len(1)),
                positions_where(lens, n, is_other3_len()),
            ),
        ) == identity(n as nat).to_multiset(),
    decreases n,
{
    broadcast use {vstd::seq_lib::group_to_multiset_ensures, vstd::multiset::group_multiset_axioms};

    if n == 0 {
        assert(identity(0) =~= Seq::<usize>::empty());
    } else {
        lemma_partition4(lens, n - 1);
        assert(identity(n as nat) =~= identity((n - 1) as nat).push((n - 1) as usize));
    }
}

/// The three-character layout is a rearrangement: every candidate appears
/// exactly once.
pub proof fn lemma_three_char_density_is_permutation(lens: Seq<usize>, page_size: usize, pol: ThreeCharDensityPolicy)
    ensures
        three_char_density(lens, page_size, pol).to_multiset() == identity(lens.len()).to_multiset(),
{
    let n = lens.len() as int;
    if n > 1 {
        let q = (
            positions_where(lens, n, is_len(3)),
            positions_where(lens, n, is_len(2)),
            positions_where(lens, n, is_len(1)),
            positions_where(lens, n, is_other3_len()),
        );
        lemma_partition4(lens, n);
        lemma_partition4_len(lens, n);
        lemma_three_pages_ms(q, 0, 0, n, clamp_page(page_size), pol);
    }
}

} // verus!
