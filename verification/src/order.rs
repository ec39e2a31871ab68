//! Orders shared by the ranking code: the code-point order of strings, and
//! listings of a set of positions sorted by a strict order.
use vstd::prelude::*;

verus! {

/// `a` comes before `b` in code-point order (the order of `<` on `String`,
/// whose UTF-8 byte order agrees with it): at the first difference the
/// smaller character wins, and a proper prefix comes first.
pub open spec fn chars_before(a: Seq<char>, b: Seq<char>) -> bool
    decreases a.len(),
{
    if a.len() == 0 {
        b.len() > 0
    } else if b.len() == 0 {
        false
    } else if (a[0] as int) < (b[0] as int) {
        true
    } else if a[0] == b[0] {
        chars_before(a.drop_first(), b.drop_first())
    } else {
        false
    }
}

/// Code-point order is a strict total order on strings.
pub proof fn lemma_chars_before_strict_total(a: Seq<char>, b: Seq<char>)
    ensures
        !(chars_before(a, b) && chars_before(b, a)),
        a != b ==> chars_before(a, b) || chars_before(b, a),
    decreases a.len(),
{
    if a.len() > 0 && b.len() > 0 && a[0] == b[0] {
        lemma_chars_before_strict_total(a.drop_first(), b.drop_first());
        if a != b {
            assert(a.drop_first() != b.drop_first()) by {
                if a.drop_first() == b.drop_first() {
                    assert(a =~= seq![a[0]] + a.drop_first());
                    assert(b =~= seq![b[0]] + b.drop_first());
                }
            }
        }
    } else if a.len() == 0 && b.len() == 0 {
        assert(a =~= b);
    } else if a.len() > 0 && b.len() > 0 {
        assert((a[0] as int) != (b[0] as int));
    }
}

/// Code-point order is transitive.
pub proof fn lemma_chars_before_transitive(a: Seq<char>, b: Seq<char>, c: Seq<char>)
    requires
        chars_before(a, b),
        chars_before(b, c),
    ensures
        chars_before(a, c),
    decreases a.len(),
{
    if a.len() > 0 && b.len() > 0 && c.len() > 0 && a[0] == b[0] && b[0] == c[0] {
        lemma_chars_before_transitive(a.drop_first(), b.drop_first(), c.drop_first());
    }
}

/// Whether `a` comes before `b` in code-point order.
pub fn chars_before_exec(a: &Vec<char>, b: &Vec<char>) -> (r: bool)
    ensures
        r == chars_before(a@, b@),
{
    let mut i: usize = 0;
    assert(a@.skip(0) =~= a@ && b@.skip(0) =~= b@);
    while i < a.len() && i < b.len() && a[i] == b[i]
        invariant
            i <= a.len(),
            i <= b.len(),
            chars_before(a@, b@) == chars_before(a@.skip(i as int), b@.skip(i as int)),
        decreases a.len() - i,
    {
        proof {
            let sa = a@.skip(i as int);
            let sb = b@.skip(i as int);
            assert(sa.drop_first() =~= a@.skip(i + 1));
            assert(sb.drop_first() =~= b@.skip(i + 1));
        }
        i += 1;
    }
    if i == a.len() {
        i < b.len()
    } else if i == b.len() {
        false
    } else {
        assert(a@.skip(i as int)[0] == a@[i as int]);
        assert(b@.skip(i as int)[0] == b@[i as int]);
        a[i] < b[i]
    }
}

/// `before` is a strict order: never both ways between two positions (and
/// so never from a position to itself).
pub open spec fn strict_order(before: spec_fn(int, int) -> bool) -> bool {
    forall|a: int, b: int| #[trigger] before(a, b) ==> !before(b, a)
}

/// `r` lists each position that `member` admits exactly once, sorted by
/// `before`.
pub open spec fn sorted_listing(r: Seq<usize>, member: spec_fn(int) -> bool, before: spec_fn(int, int) -> bool) -> bool {
    &&& forall|i: int| 0 <= i < r.len() ==> #[trigger] member(r[i] as int)
    &&& forall|j: int| #[trigger] member(j) ==> exists|i: int| 0 <= i < r.len() && #[trigger] r[i] as int == j
    &&& forall|i: int, k: int| 0 <= i < k < r.len() ==> before(#[trigger] r[i] as int, #[trigger] r[k] as int)
}

/// A sorted listing by a strict order is unique.
pub proof fn lemma_sorted_listing_unique(
    r1: Seq<usize>,
    r2: Seq<usize>,
    member: spec_fn(int) -> bool,
    before: spec_fn(int, int) -> bool,
)
    requires
        strict_order(before),
        sorted_listing(r1, member, before),
        sorted_listing(r2, member, before),
    ensures
        r1 == r2,
    decreases r1.len(),
{
    if r1.len() == 0 {
        if r2.len() > 0 {
            assert(member(r2[0] as int));
        }
        assert(r1 =~= r2);
    } else {
        assert(member(r1[0] as int));
        let j = choose|i: int| 0 <= i < r2.len() && #[trigger] r2[i] as int == r1[0] as int;
        assert(member(r2[0] as int));
        let i = choose|i: int| 0 <= i < r1.len() && #[trigger] r1[i] as int == r2[0] as int;
        if r1[0] != r2[0] {
            assert(i > 0 && j > 0);
            assert(before(r1[0] as int, r1[i] as int));
            assert(before(r2[0] as int, r2[j] as int));
        }
        let h = r1[0] as int;
        let m2 = |x: int| member(x) && x != h;
        let t1 = r1.skip(1);
        let t2 = r2.skip(1);
        assert forall|a: int| 0 <= a < t1.len() implies #[trigger] m2(t1[a] as int) by {
            assert(t1[a] == r1[a + 1]);
            assert(member(r1[a + 1] as int));
            assert(before(r1[0] as int, r1[a + 1] as int));
        }
        assert forall|a: int| 0 <= a < t2.len() implies #[trigger] m2(t2[a] as int) by {
            assert(t2[a] == r2[a + 1]);
            assert(member(r2[a + 1] as int));
            assert(before(r2[0] as int, r2[a + 1] as int));
        }
        assert forall|x: int| #[trigger] m2(x) implies exists|a: int| 0 <= a < t1.len() && #[trigger] t1[a] as int == x by {
            assert(member(x));
            let p = choose|p: int| 0 <= p < r1.len() && #[trigger] r1[p] as int == x;
            assert(p != 0);
            assert(t1[p - 1] == r1[p]);
        }
        assert forall|x: int| #[trigger] m2(x) implies exists|a: int| 0 <= a < t2.len() && #[trigger] t2[a] as int == x by {
            assert(member(x));
            let p = choose|p: int| 0 <= p < r2.len() && #[trigger] r2[p] as int == x;
            assert(p != 0);
            assert(t2[p - 1] == r2[p]);
        }
        assert forall|a: int, b: int| 0 <= a < b < t1.len() implies before(#[trigger] t1[a] as int, #[trigger] t1[b] as int) by {
            assert(t1[a] == r1[a + 1] && t1[b] == r1[b + 1]);
        }
        assert forall|a: int, b: int| 0 <= a < b < t2.len() implies before(#[trigger] t2[a] as int, #[trigger] t2[b] as int) by {
            assert(t2[a] == r2[a + 1] && t2[b] == r2[b + 1]);
        }
        lemma_sorted_listing_unique(t1, t2, m2, before);
        assert(r1 =~= seq![r1[0]] + t1);
        assert(r2 =~= seq![r2[0]] + t2);
    }
}

} // verus!
