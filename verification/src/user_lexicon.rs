//! The user dictionary: learned readings, blocked phrases, selection
//! feedback and the learning clock.
use vstd::prelude::*;
use crate::order::lemma_sorted_listing_unique;

verus! {

/// One learned reading -> phrase association.
pub struct UserEntry {
    pub key: String,
    pub phrase: String,
    pub freq: u64,
    pub last_used: u64,
    pub pinned: bool,
}

/// Accumulated selection feedback of one phrase under one reading.
pub struct FeedbackEntry {
    /// The reading, prefixed by the preceding commit and a tab for feedback
    /// that holds only after that commit.
    pub key: String,
    pub phrase: String,
    pub score: i64,
    pub last_used: u64,
}

/// A learned entry as plain values: key, phrase, frequency, last use, pinned.
pub type EntryView = (Seq<char>, Seq<char>, u64, u64, bool);

pub open spec fn entry_view(e: UserEntry) -> EntryView {
    (e.key@, e.phrase@, e.freq, e.last_used, e.pinned)
}

pub open spec fn entries_view(v: Seq<UserEntry>) -> Seq<EntryView> {
    v.map_values(|e: UserEntry| entry_view(e))
}

pub type FeedbackView = (Seq<char>, Seq<char>, i64, u64);

pub open spec fn feedback_view(e: FeedbackEntry) -> FeedbackView {
    (e.key@, e.phrase@, e.score, e.last_used)
}

pub open spec fn feedbacks_view(v: Seq<FeedbackEntry>) -> Seq<FeedbackView> {
    v.map_values(|e: FeedbackEntry| feedback_view(e))
}

pub open spec fn strs_view(v: Seq<String>) -> Seq<Seq<char>> {
    v.map_values(|s: String| s@)
}

/// The index of the entry for `(key, phrase)`, when there is one.
pub open spec fn entry_index(es: Seq<EntryView>, key: Seq<char>, phrase: Seq<char>) -> Option<int>
    decreases es.len(),
{
    if es.len() == 0 {
        None
    } else if es.last().0 == key && es.last().1 == phrase {
        Some(es.len() - 1)
    } else {
        entry_index(es.drop_last(), key, phrase)
    }
}

pub struct UserLexicon {
    pub entries: Vec<UserEntry>,
    pub blocked: Vec<String>,
    pub selection: Vec<FeedbackEntry>,
    pub weak_unselected: Vec<FeedbackEntry>,
    pub corrections: Vec<(String, String)>,
    pub observations: Vec<UserEntry>,
    pub context: Vec<String>,
    pub clock: u64,
}

/// The saturating sum of two counters.
pub open spec fn sat_add(a: u64, b: u64) -> u64 {
    if a + b > u64::MAX {
        u64::MAX
    } else {
        (a + b) as u64
    }
}

/// `es` after learning `key -> phrase` with weight `delta` at time `now`: the
/// existing entry gains `delta` and is stamped, or a new entry is appended.
pub open spec fn learned(es: Seq<EntryView>, key: Seq<char>, phrase: Seq<char>, delta: u64, now: u64) -> Seq<
    EntryView,
> {
    match entry_index(es, key, phrase) {
        Some(i) => es.update(i, (key, phrase, sat_add(es[i].2, delta), now, es[i].4)),
        None => es.push((key, phrase, delta, now, false)),
    }
}

proof fn lemma_entry_index(es: Seq<EntryView>, key: Seq<char>, phrase: Seq<char>)
    ensures
        match entry_index(es, key, phrase) {
            Some(i) => 0 <= i < es.len() && es[i].0 == key && es[i].1 == phrase,
            None => forall|j: int| 0 <= j < es.len() ==> !(es[j].0 == key && es[j].1 == phrase),
        },
    decreases es.len(),
{
    if es.len() > 0 {
        let d = es.drop_last();
        lemma_entry_index(d, key, phrase);
        assert forall|j: int| 0 <= j < d.len() implies es[j] == d[j] by {}
    }
}

fn find_entry(v: &Vec<UserEntry>, key: &String, phrase: &String) -> (r: Option<usize>)
    ensures
        match r {
            Some(i) => entry_index(entries_view(v@), key@, phrase@) == Some(i as int),
            None => entry_index(entries_view(v@), key@, phrase@) is None,
        },
{
    let ghost es = entries_view(v@);
    let mut i = v.len();
    assert(es.take(v.len() as int) =~= es);
    while i > 0
        invariant
            i <= v.len(),
            es == entries_view(v@),
            entry_index(es, key@, phrase@) == entry_index(es.take(i as int), key@, phrase@),
        decreases i,
    {
        let ghost t = es.take(i as int);
        assert(t.drop_last() =~= es.take(i - 1));
        assert(t.last() == entry_view(v@[i - 1]));
        if v[i - 1].key == *key && v[i - 1].phrase == *phrase {
            return Some(i - 1);
        }
        i -= 1;
    }
    None
}

impl UserLexicon {
    pub open spec fn entries_v(&self) -> Seq<EntryView> {
        entries_view(self.entries@)
    }

    pub open spec fn blocked_v(&self) -> Seq<Seq<char>> {
        strs_view(self.blocked@)
    }

    pub open spec fn context_v(&self) -> Seq<Seq<char>> {
        strs_view(self.context@)
    }

    pub open spec fn observations_v(&self) -> Seq<EntryView> {
        entries_view(self.observations@)
    }

    /// An empty dictionary whose clock stands at zero.
    pub fn new() -> (r: Self)
        ensures
            r.entries@.len() == 0,
            r.blocked@.len() == 0,
            r.selection@.len() == 0,
            r.weak_unselected@.len() == 0,
            r.corrections@.len() == 0,
            r.observations@.len() == 0,
            r.context@.len() == 0,
            r.clock == 0,
    {
        UserLexicon {
            entries: Vec::new(),
            blocked: Vec::new(),
            selection: Vec::new(),
            weak_unselected: Vec::new(),
            corrections: Vec::new(),
            observations: Vec::new(),
            context: Vec::new(),
            clock: 0,
        }
    }

    pub fn current_clock(&self) -> (r: u64)
        ensures
            r == self.clock,
    {
        self.clock
    }

    /// Advances the clock by one tick, saturating, and returns the new time.
    pub fn tick(&mut self) -> (r: u64)
        ensures
            r == sat_add(old(self).clock, 1),
            final(self).clock == r,
            final(self).entries == old(self).entries,
            final(self).blocked == old(self).blocked,
            final(self).selection == old(self).selection,
            final(self).weak_unselected == old(self).weak_unselected,
            final(self).corrections == old(self).corrections,
            final(self).observations == old(self).observations,
            final(self).context == old(self).context,
    {
        self.clock = if self.clock < u64::MAX {
            self.clock + 1
        } else {
            u64::MAX
        };
        self.clock
    }

    /// Moves the clock forward without recording anything.
    pub fn advance_clock_for_eval(&mut self, ticks: u64)
        ensures
            final(self).clock == sat_add(old(self).clock, ticks),
            final(self).entries == old(self).entries,
            final(self).blocked == old(self).blocked,
            final(self).selection == old(self).selection,
            final(self).weak_unselected == old(self).weak_unselected,
            final(self).corrections == old(self).corrections,
            final(self).observations == old(self).observations,
            final(self).context == old(self).context,
    {
        self.clock = if self.clock <= u64::MAX - ticks {
            self.clock + ticks
        } else {
            u64::MAX
        };
    }

    pub fn clear_context_history(&mut self)
        ensures
            final(self).context@.len() == 0,
            final(self).entries == old(self).entries,
            final(self).blocked == old(self).blocked,
            final(self).selection == old(self).selection,
            final(self).weak_unselected == old(self).weak_unselected,
            final(self).corrections == old(self).corrections,
            final(self).observations == old(self).observations,
            final(self).clock == old(self).clock,
    {
        self.context = Vec::new();
    }

    /// Whether `phrase` is blocked from being offered.
    pub fn phrase_is_blocked(&self, phrase: &String) -> (r: bool)
        ensures
            r == self.blocked_v().contains(phrase@),
    {
        let mut i: usize = 0;
        while i < self.blocked.len()
            invariant
                i <= self.blocked.len(),
                forall|k: int| 0 <= k < i ==> self.blocked@[k]@ != phrase@,
            decreases self.blocked.len() - i,
        {
            if self.blocked[i] == *phrase {
                assert(self.blocked_v()[i as int] == phrase@);
                return true;
            }
            i += 1;
        }
        assert forall|k: int| 0 <= k < self.blocked_v().len() implies self.blocked_v()[k]
            != phrase@ by {
            assert(self.blocked_v()[k] == self.blocked@[k]@);
        }
        false
    }

    /// Learns `key -> phrase` with weight `delta`, stamping it with the next
    /// clock tick; with `remember`, the phrase also becomes the latest commit
    /// of the context history.
    pub fn learn(&mut self, key: &String, phrase: &String, delta: u64, remember: bool)
        ensures
            final(self).clock == sat_add(old(self).clock, 1),
            final(self).entries_v() == learned(
                old(self).entries_v(),
                key@,
                phrase@,
                delta,
                final(self).clock,
            ),
            final(self).context_v() == if remember {
                old(self).context_v().insert(0, phrase@)
            } else {
                old(self).context_v()
            },
            !remember ==> final(self).context == old(self).context,
            final(self).blocked == old(self).blocked,
            final(self).selection == old(self).selection,
            final(self).weak_unselected == old(self).weak_unselected,
            final(self).corrections == old(self).corrections,
            final(self).observations == old(self).observations,
    {
        let now = self.tick();
        let ghost es = self.entries_v();
        proof {
            lemma_entry_index(es, key@, phrase@);
        }
        match find_entry(&self.entries, key, phrase) {
            Some(i) => {
                let e = &self.entries[i];
                let freq = if e.freq <= u64::MAX - delta {
                    e.freq + delta
                } else {
                    u64::MAX
                };
                let updated = UserEntry {
                    key: e.key.clone(),
                    phrase: e.phrase.clone(),
                    freq,
                    last_used: now,
                    pinned: e.pinned,
                };
                self.entries.set(i, updated);
                assert(self.entries_v() =~= es.update(
                    i as int,
                    (key@, phrase@, sat_add(es[i as int].2, delta), now, es[i as int].4),
                ));
            },
            None => {
                self.entries.push(
                    UserEntry {
                        key: key.clone(),
                        phrase: phrase.clone(),
                        freq: delta,
                        last_used: now,
                        pinned: false,
                    },
                );
                assert(self.entries_v() =~= es.push((key@, phrase@, delta, now, false)));
            },
        }
        if remember {
            let ghost c = self.context_v();
            self.context.insert(0, phrase.clone());
            assert(self.context_v() =~= c.insert(0, phrase@));
        }
    }

    /// Applies `ops` in order, each learning its reading -> phrase with its
    /// weight at the next clock tick.
    pub fn learn_all(&mut self, ops: &Vec<(String, String, u64)>)
        ensures
            (final(self).entries_v(), final(self).clock) == apply_learns(
                old(self).entries_v(),
                old(self).clock,
                ops_view(ops@),
            ),
            final(self).context == old(self).context,
            final(self).blocked == old(self).blocked,
            final(self).selection == old(self).selection,
            final(self).weak_unselected == old(self).weak_unselected,
            final(self).corrections == old(self).corrections,
            final(self).observations == old(self).observations,
    {
        let ghost ov = ops_view(ops@);
        let mut i: usize = 0;
        while i < ops.len()
            invariant
                i <= ops.len(),
                ov == ops_view(ops@),
                (self.entries_v(), self.clock) == apply_learns(
                    old(self).entries_v(),
                    old(self).clock,
                    ov.take(i as int),
                ),
                self.context == old(self).context,
                self.blocked == old(self).blocked,
                self.selection == old(self).selection,
                self.weak_unselected == old(self).weak_unselected,
                self.corrections == old(self).corrections,
                self.observations == old(self).observations,
            decreases ops.len() - i,
        {
            assert(ov.take(i + 1).drop_last() =~= ov.take(i as int));
            let op = &ops[i];
            self.learn(&op.0, &op.1, op.2, false);
            i += 1;
        }
        assert(ov.take(ops.len() as int) =~= ov);
    }
}

/// One learning step as plain values: reading, phrase and weight.
pub type LearnOp = (Seq<char>, Seq<char>, u64);

pub open spec fn ops_view(v: Seq<(String, String, u64)>) -> Seq<LearnOp> {
    v.map_values(|o: (String, String, u64)| (o.0@, o.1@, o.2))
}

/// The entries and clock after learning each step of `ops` in turn, each at
/// the next clock tick.
pub open spec fn apply_learns(es: Seq<EntryView>, clock: u64, ops: Seq<LearnOp>) -> (Seq<EntryView>, u64)
    decreases ops.len(),
{
    if ops.len() == 0 {
        (es, clock)
    } else {
        let prev = apply_learns(es, clock, ops.drop_last());
        let op = ops.last();
        let now = sat_add(prev.1, 1);
        (learned(prev.0, op.0, op.1, op.2, now), now)
    }
}

/// Some entry pairs `key` with `phrase`.
pub open spec fn has_entry(es: Seq<EntryView>, key: Seq<char>, phrase: Seq<char>) -> bool {
    exists|i: int| 0 <= i < es.len() && (#[trigger] es[i]).0 == key && es[i].1 == phrase
}

/// Learning never loses an association.
pub proof fn lemma_learned_keeps(
    es: Seq<EntryView>,
    k: Seq<char>,
    p: Seq<char>,
    d: u64,
    now: u64,
    key: Seq<char>,
    phrase: Seq<char>,
)
    ensures
        has_entry(learned(es, k, p, d, now), k, p),
        has_entry(es, key, phrase) ==> has_entry(learned(es, k, p, d, now), key, phrase),
{
    lemma_entry_index(es, k, p);
    let r = learned(es, k, p, d, now);
    match entry_index(es, k, p) {
        Some(i) => {
            assert(r[i].0 == k && r[i].1 == p);
        },
        None => {
            assert(r[es.len() as int].0 == k && r[es.len() as int].1 == p);
        },
    }
    if has_entry(es, key, phrase) {
        let j = choose|j: int| 0 <= j < es.len() && (#[trigger] es[j]).0 == key && es[j].1 == phrase;
        assert(r[j].0 == key && r[j].1 == phrase);
    }
}

pub proof fn lemma_apply_learns_keeps(es: Seq<EntryView>, clock: u64, ops: Seq<LearnOp>, key: Seq<char>, phrase: Seq<char>)
    requires
        has_entry(es, key, phrase),
    ensures
        has_entry(apply_learns(es, clock, ops).0, key, phrase),
    decreases ops.len(),
{
    if ops.len() > 0 {
        lemma_apply_learns_keeps(es, clock, ops.drop_last(), key, phrase);
        let prev = apply_learns(es, clock, ops.drop_last());
        let op = ops.last();
        lemma_learned_keeps(prev.0, op.0, op.1, op.2, sat_add(prev.1, 1), key, phrase);
    }
}

/// `a` outranks `b`: pinned before unpinned, then the higher frequency.
pub open spec fn outranks(a: EntryView, b: EntryView) -> bool {
    (a.4 && !b.4) || (a.4 == b.4 && a.2 > b.2)
}

/// Entry `a` is listed before entry `b`: it outranks it, or they rank
/// equally and `a` was learned first.
pub open spec fn listed_before(es: Seq<EntryView>, a: int, b: int) -> bool {
    outranks(es[a], es[b]) || (!outranks(es[b], es[a]) && a < b)
}

/// The entry at `i` is offered for `key`: it is learned under `key` and its
/// phrase is not blocked.
pub open spec fn offered(es: Seq<EntryView>, blocked: Seq<Seq<char>>, key: Seq<char>, i: int) -> bool {
    0 <= i < es.len() && es[i].0 == key && !blocked.contains(es[i].1)
}

/// The ranked list of entries offered for `key`: every offered entry once,
/// in `listed_before` order.
pub open spec fn is_ranking(
    r: Seq<usize>,
    es: Seq<EntryView>,
    blocked: Seq<Seq<char>>,
    key: Seq<char>,
) -> bool {
    &&& forall|i: int| 0 <= i < r.len() ==> offered(es, blocked, key, #[trigger] r[i] as int)
    &&& forall|j: int| offered(es, blocked, key, j) ==> exists|i: int|
        0 <= i < r.len() && #[trigger] r[i] as int == j
    &&& forall|i: int, k: int|
        0 <= i < k < r.len() ==> listed_before(es, #[trigger] r[i] as int, #[trigger] r[k] as int)
}

proof fn lemma_listed_before_strict(es: Seq<EntryView>, a: int, b: int)
    ensures
        !listed_before(es, a, a),
        !(listed_before(es, a, b) && listed_before(es, b, a)),
{
}

/// The ranking for a key is unique: `listed_before` leaves no ties, so any
/// two rankings of the same entries for the same key agree.
pub proof fn lemma_ranking_unique(
    r1: Seq<usize>,
    r2: Seq<usize>,
    es: Seq<EntryView>,
    blocked: Seq<Seq<char>>,
    key: Seq<char>,
)
    requires
        is_ranking(r1, es, blocked, key),
        is_ranking(r2, es, blocked, key),
    ensures
        r1 == r2,
{
    let member = |j: int| offered(es, blocked, key, j);
    let before = |a: int, b: int| listed_before(es, a, b);
    assert forall|a: int, b: int| #[trigger] before(a, b) implies !before(b, a) by {
        lemma_listed_before_strict(es, a, b);
    }
    assert forall|i: int| 0 <= i < r1.len() implies #[trigger] member(r1[i] as int) by {
        assert(offered(es, blocked, key, r1[i] as int));
    }
    assert forall|i: int| 0 <= i < r2.len() implies #[trigger] member(r2[i] as int) by {
        assert(offered(es, blocked, key, r2[i] as int));
    }
    assert forall|j: int| #[trigger] member(j) implies exists|i: int| 0 <= i < r1.len() && #[trigger] r1[i] as int == j by {
        assert(offered(es, blocked, key, j));
    }
    assert forall|j: int| #[trigger] member(j) implies exists|i: int| 0 <= i < r2.len() && #[trigger] r2[i] as int == j by {
        assert(offered(es, blocked, key, j));
    }
    assert forall|i: int, k: int| 0 <= i < k < r1.len() implies before(#[trigger] r1[i] as int, #[trigger] r1[k] as int) by {}
    assert forall|i: int, k: int| 0 <= i < k < r2.len() implies before(#[trigger] r2[i] as int, #[trigger] r2[k] as int) by {}
    lemma_sorted_listing_unique(r1, r2, member, before);
}

fn outranks_exec(a: &UserEntry, b: &UserEntry) -> (r: bool)
    ensures
        r == outranks(entry_view(*a), entry_view(*b)),
{
    (a.pinned && !b.pinned) || (a.pinned == b.pinned && a.freq > b.freq)
}

impl UserLexicon {
    /// The entries offered for `key`, best first.
    pub fn ranked_indices(&self, key: &String) -> (r: Vec<usize>)
        ensures
            is_ranking(r@, self.entries_v(), self.blocked_v(), key@),
    {
        let ghost es = self.entries_v();
        let ghost bl = self.blocked_v();
        let mut out: Vec<usize> = Vec::new();
        let mut x: usize = 0;
        while x < self.entries.len()
            invariant
                x <= self.entries.len(),
                es == self.entries_v(),
                bl == self.blocked_v(),
                forall|i: int| 0 <= i < out@.len() ==> offered(es, bl, key@, #[trigger] out@[i] as int)
                    && out@[i] < x,
                forall|j: int| 0 <= j < x && offered(es, bl, key@, j) ==> exists|i: int|
                    0 <= i < out@.len() && #[trigger] out@[i] as int == j,
                forall|i: int, k: int|
                    0 <= i < k < out@.len() ==> listed_before(es, #[trigger] out@[i] as int, #[trigger] out@[k] as int),
            decreases self.entries.len() - x,
        {
            assert(es[x as int] == entry_view(self.entries@[x as int]));
            if self.entries[x].key == *key && !self.phrase_is_blocked(&self.entries[x].phrase) {
                let mut p: usize = 0;
                while p < out.len() && !outranks_exec(&self.entries[x], &self.entries[out[p]])
                    invariant
                        p <= out.len(),
                        es == self.entries_v(),
                        x < self.entries.len(),
                        forall|i: int| 0 <= i < out@.len() ==> #[trigger] out@[i] < x,
                        forall|i: int| 0 <= i < p ==> !outranks(es[x as int], es[#[trigger] out@[i] as int]),
                    decreases out.len() - p,
                {
                    assert(es[out@[p as int] as int] == entry_view(self.entries@[out@[p as int] as int]));
                    p += 1;
                }
                if p < out.len() {
                    assert(es[out@[p as int] as int] == entry_view(self.entries@[out@[p as int] as int]));
                }
                let ghost old_out = out@;
                out.insert(p, x);
                assert(out@ =~= old_out.insert(p as int, x));
                assert forall|i: int, k: int|
                    0 <= i < k < out@.len() implies listed_before(es, #[trigger] out@[i] as int, #[trigger] out@[k] as int) by {
                    if k < p {
                        assert(out@[i] == old_out[i] && out@[k] == old_out[k]);
                    } else if k == p {
                        assert(out@[i] == old_out[i]);
                        assert(!outranks(es[x as int], es[old_out[i] as int]));
                        assert(old_out[i] < x);
                    } else if i < p {
                        assert(out@[i] == old_out[i] && out@[k] == old_out[k - 1]);
                    } else if i == p {
                        assert(out@[k] == old_out[k - 1]);
                        if p < old_out.len() {
                            assert(outranks(es[x as int], es[old_out[p as int] as int]));
                            if k - 1 > p {
                                assert(listed_before(es, old_out[p as int] as int, old_out[k - 1] as int));
                            }
                        }
                    } else {
                        assert(out@[i] == old_out[i - 1] && out@[k] == old_out[k - 1]);
                    }
                }
                assert forall|j: int| 0 <= j < x + 1 && offered(es, bl, key@, j) implies exists|i: int|
                    0 <= i < out@.len() && #[trigger] out@[i] as int == j by {
                    if j == x {
                        assert(out@[p as int] as int == j);
                    } else {
                        let i0 = choose|i: int| 0 <= i < old_out.len() && #[trigger] old_out[i] as int == j;
                        if i0 < p {
                            assert(out@[i0] as int == j);
                        } else {
                            assert(out@[i0 + 1] as int == j);
                        }
                    }
                }
                assert forall|i: int| 0 <= i < out@.len() implies offered(es, bl, key@, #[trigger] out@[i] as int)
                    && out@[i] < x + 1 by {
                    if i < p {
                        assert(out@[i] == old_out[i]);
                    } else if i > p {
                        assert(out@[i] == old_out[i - 1]);
                    }
                }
            }
            x += 1;
        }
        out
    }

    /// The phrases offered for `key`, best first.
    pub fn phrases_for(&self, key: &String) -> (r: Vec<String>)
        ensures
            exists|idx: Seq<usize>|
                is_ranking(idx, self.entries_v(), self.blocked_v(), key@) && strs_view(r@)
                    == idx.map_values(|i: usize| self.entries_v()[i as int].1),
    {
        let idx = self.ranked_indices(key);
        let mut out: Vec<String> = Vec::new();
        let mut i: usize = 0;
        while i < idx.len()
            invariant
                i <= idx.len(),
                is_ranking(idx@, self.entries_v(), self.blocked_v(), key@),
                strs_view(out@) =~= idx@.take(i as int).map_values(|j: usize| self.entries_v()[j as int].1),
            decreases idx.len() - i,
        {
            assert(offered(self.entries_v(), self.blocked_v(), key@, idx@[i as int] as int));
            assert(self.entries_v()[idx@[i as int] as int] == entry_view(self.entries@[idx@[i as int] as int]));
            let ghost before = strs_view(out@);
            out.push(self.entries[idx[i]].phrase.clone());
            assert(strs_view(out@) =~= before.push(self.entries_v()[idx@[i as int] as int].1));
            assert(idx@.take(i + 1) =~= idx@.take(i as int).push(idx@[i as int]));
            i += 1;
        }
        assert(idx@.take(idx.len() as int) =~= idx@);
        out
    }
}

/// `es` after adding `delta` to the score of `(prev, key, phrase)`, or after
/// appending that entry with score `delta`.
pub open spec fn feedback_added(
    es: Seq<FeedbackView>,
    key: Seq<char>,
    phrase: Seq<char>,
    delta: i64,
    now: u64,
) -> Seq<FeedbackView> {
    match feedback_index(es, key, phrase) {
        Some(i) => es.update(i, (key, phrase, sat_add_i64(es[i].2, delta), now)),
        None => es.push((key, phrase, delta, now)),
    }
}

pub open spec fn sat_add_i64(a: i64, b: i64) -> i64 {
    if a + b > i64::MAX {
        i64::MAX
    } else if a + b < i64::MIN {
        i64::MIN
    } else {
        (a + b) as i64
    }
}

pub open spec fn feedback_index(es: Seq<FeedbackView>, key: Seq<char>, phrase: Seq<char>) -> Option<int>
    decreases es.len(),
{
    if es.len() == 0 {
        None
    } else if es.last().0 == key && es.last().1 == phrase {
        Some(es.len() - 1)
    } else {
        feedback_index(es.drop_last(), key, phrase)
    }
}

proof fn lemma_feedback_index(es: Seq<FeedbackView>, key: Seq<char>, phrase: Seq<char>)
    ensures
        match feedback_index(es, key, phrase) {
            Some(i) => 0 <= i < es.len() && es[i].0 == key && es[i].1 == phrase,
            None => forall|j: int| 0 <= j < es.len() ==> !(es[j].0 == key && es[j].1 == phrase),
        },
    decreases es.len(),
{
    if es.len() > 0 {
        let d = es.drop_last();
        lemma_feedback_index(d, key, phrase);
        assert forall|j: int| 0 <= j < d.len() implies es[j] == d[j] by {}
    }
}

fn find_feedback(v: &Vec<FeedbackEntry>, key: &String, phrase: &String) -> (r: Option<usize>)
    ensures
        match r {
            Some(i) => feedback_index(feedbacks_view(v@), key@, phrase@) == Some(i as int),
            None => feedback_index(feedbacks_view(v@), key@, phrase@) is None,
        },
{
    let ghost es = feedbacks_view(v@);
    let mut i = v.len();
    assert(es.take(v.len() as int) =~= es);
    while i > 0
        invariant
            i <= v.len(),
            es == feedbacks_view(v@),
            feedback_index(es, key@, phrase@) == feedback_index(es.take(i as int), key@, phrase@),
        decreases i,
    {
        let ghost t = es.take(i as int);
        assert(t.drop_last() =~= es.take(i - 1));
        assert(t.last() == feedback_view(v@[i - 1]));
        if v[i - 1].key == *key && v[i - 1].phrase == *phrase {
            return Some(i - 1);
        }
        i -= 1;
    }
    None
}

/// Adds `delta` to the feedback of `(key, phrase)` in `v`.
pub fn add_feedback(v: &mut Vec<FeedbackEntry>, key: &String, phrase: &String, delta: i64, now: u64)
    ensures
        feedbacks_view(final(v)@) == feedback_added(feedbacks_view(old(v)@), key@, phrase@, delta, now),
{
    let ghost es = feedbacks_view(v@);
    proof {
        lemma_feedback_index(es, key@, phrase@);
    }
    match find_feedback(v, key, phrase) {
        Some(i) => {
            let e = &v[i];
            let score = if delta >= 0 {
                if e.score <= i64::MAX - delta {
                    e.score + delta
                } else {
                    i64::MAX
                }
            } else {
                if e.score >= i64::MIN - delta {
                    e.score + delta
                } else {
                    i64::MIN
                }
            };
            let updated = FeedbackEntry {
                key: e.key.clone(),
                phrase: e.phrase.clone(),
                score,
                last_used: now,
            };
            v.set(i, updated);
            assert(feedbacks_view(v@) =~= es.update(
                i as int,
                (key@, phrase@, sat_add_i64(es[i as int].2, delta), now),
            ));
        },
        None => {
            v.push(FeedbackEntry { key: key.clone(), phrase: phrase.clone(), score: delta, last_used: now });
            assert(feedbacks_view(v@) =~= es.push((key@, phrase@, delta, now)));
        },
    }
}

pub proof fn lemma_contains_push<A>(s: Seq<A>, a: A, x: A)
    ensures
        s.push(a).contains(x) <==> (s.contains(x) || x == a),
{
    if s.contains(x) {
        let k = choose|k: int| 0 <= k < s.len() && s[k] == x;
        assert(s.push(a)[k] == x);
    }
    if x == a {
        assert(s.push(a)[s.len() as int] == x);
    }
    if s.push(a).contains(x) {
        let k = choose|k: int| 0 <= k < s.push(a).len() && s.push(a)[k] == x;
        if k < s.len() {
            assert(s[k] == x);
        }
    }
}

/// `es` without the entry for `(key, phrase)`.
pub open spec fn entry_removed(es: Seq<EntryView>, key: Seq<char>, phrase: Seq<char>) -> Seq<EntryView> {
    match entry_index(es, key, phrase) {
        Some(i) => es.remove(i),
        None => es,
    }
}

/// `es` with the entry for `(key, phrase)` pinned or unpinned; pinning an
/// absent entry appends it with frequency zero.
pub open spec fn entry_pinned(
    es: Seq<EntryView>,
    key: Seq<char>,
    phrase: Seq<char>,
    pinned: bool,
    now: u64,
) -> Seq<EntryView> {
    match entry_index(es, key, phrase) {
        Some(i) => es.update(i, (key, phrase, es[i].2, es[i].3, pinned)),
        None => if pinned {
            es.push((key, phrase, 0, now, true))
        } else {
            es
        },
    }
}

impl UserLexicon {
    /// Records one more observation of `key -> phrase` and returns how many
    /// times it has been observed.
    pub fn observe_input(&mut self, key: &String, phrase: &String) -> (r: u64)
        ensures
            entries_view(final(self).observations@) == learned(
                entries_view(old(self).observations@),
                key@,
                phrase@,
                1,
                old(self).clock,
            ),
            r == match entry_index(entries_view(old(self).observations@), key@, phrase@) {
                Some(i) => sat_add(entries_view(old(self).observations@)[i].2, 1),
                None => 1,
            },
            final(self).entries == old(self).entries,
            final(self).blocked == old(self).blocked,
            final(self).selection == old(self).selection,
            final(self).weak_unselected == old(self).weak_unselected,
            final(self).corrections == old(self).corrections,
            final(self).context == old(self).context,
            final(self).clock == old(self).clock,
    {
        let now = self.clock;
        let ghost es = entries_view(self.observations@);
        proof {
            lemma_entry_index(es, key@, phrase@);
        }
        match find_entry(&self.observations, key, phrase) {
            Some(i) => {
                let e = &self.observations[i];
                let freq = if e.freq < u64::MAX {
                    e.freq + 1
                } else {
                    u64::MAX
                };
                let updated = UserEntry {
                    key: e.key.clone(),
                    phrase: e.phrase.clone(),
                    freq,
                    last_used: now,
                    pinned: e.pinned,
                };
                self.observations.set(i, updated);
                assert(entries_view(self.observations@) =~= es.update(
                    i as int,
                    (key@, phrase@, sat_add(es[i as int].2, 1), now, es[i as int].4),
                ));
                freq
            },
            None => {
                self.observations.push(
                    UserEntry { key: key.clone(), phrase: phrase.clone(), freq: 1, last_used: now, pinned: false },
                );
                assert(entries_view(self.observations@) =~= es.push((key@, phrase@, 1, now, false)));
                1
            },
        }
    }

    /// Whether `key -> phrase` is learned.
    pub fn has_exact_input(&self, key: &String, phrase: &String) -> (r: bool)
        ensures
            r == (entry_index(self.entries_v(), key@, phrase@) is Some),
    {
        find_entry(&self.entries, key, phrase).is_some()
    }

    /// Removes the entry for `(key, phrase)`; tells whether there was one.
    pub fn remove_exact_input(&mut self, key: &String, phrase: &String) -> (r: bool)
        ensures
            r == (entry_index(old(self).entries_v(), key@, phrase@) is Some),
            final(self).entries_v() == entry_removed(old(self).entries_v(), key@, phrase@),
            final(self).blocked == old(self).blocked,
            final(self).selection == old(self).selection,
            final(self).weak_unselected == old(self).weak_unselected,
            final(self).clock == old(self).clock,
    {
        let ghost es = self.entries_v();
        proof {
            lemma_entry_index(es, key@, phrase@);
        }
        match find_entry(&self.entries, key, phrase) {
            Some(i) => {
                self.entries.remove(i);
                assert(self.entries_v() =~= es.remove(i as int));
                true
            },
            None => false,
        }
    }

    /// Pins or unpins the entry for `(key, phrase)`.
    pub fn set_pinned(&mut self, key: &String, phrase: &String, pinned: bool)
        ensures
            final(self).entries_v() == entry_pinned(
                old(self).entries_v(),
                key@,
                phrase@,
                pinned,
                old(self).clock,
            ),
            final(self).blocked == old(self).blocked,
            final(self).selection == old(self).selection,
            final(self).weak_unselected == old(self).weak_unselected,
            final(self).clock == old(self).clock,
    {
        let ghost es = self.entries_v();
        proof {
            lemma_entry_index(es, key@, phrase@);
        }
        match find_entry(&self.entries, key, phrase) {
            Some(i) => {
                let e = &self.entries[i];
                let updated = UserEntry {
                    key: e.key.clone(),
                    phrase: e.phrase.clone(),
                    freq: e.freq,
                    last_used: e.last_used,
                    pinned,
                };
                self.entries.set(i, updated);
                assert(self.entries_v() =~= es.update(
                    i as int,
                    (key@, phrase@, es[i as int].2, es[i as int].3, pinned),
                ));
            },
            None => {
                if pinned {
                    self.entries.push(
                        UserEntry { key: key.clone(), phrase: phrase.clone(), freq: 0, last_used: self.clock, pinned: true },
                    );
                    assert(self.entries_v() =~= es.push((key@, phrase@, 0, self.clock, true)));
                }
            },
        }
    }

    /// Blocks `phrase`; tells whether it was not blocked before.
    pub fn block_phrase(&mut self, phrase: &String) -> (r: bool)
        ensures
            r == !old(self).blocked_v().contains(phrase@),
            final(self).blocked_v() == if r {
                old(self).blocked_v().push(phrase@)
            } else {
                old(self).blocked_v()
            },
            final(self).entries == old(self).entries,
            final(self).clock == old(self).clock,
    {
        if self.phrase_is_blocked(phrase) {
            return false;
        }
        let ghost b = self.blocked_v();
        self.blocked.push(phrase.clone());
        assert(self.blocked_v() =~= b.push(phrase@));
        true
    }

    /// Unblocks `phrase`; tells whether it was blocked.
    pub fn unblock_phrase(&mut self, phrase: &String) -> (r: bool)
        ensures
            r == old(self).blocked_v().contains(phrase@),
            !final(self).blocked_v().contains(phrase@),
            forall|p: Seq<char>| p != phrase@ ==> (#[trigger] final(self).blocked_v().contains(p)
                <==> old(self).blocked_v().contains(p)),
            final(self).entries == old(self).entries,
            final(self).clock == old(self).clock,
    {
        let ghost b = self.blocked_v();
        let mut kept: Vec<String> = Vec::new();
        let mut found = false;
        let mut i: usize = 0;
        while i < self.blocked.len()
            invariant
                i <= self.blocked.len(),
                b == self.blocked_v(),
                found == b.take(i as int).contains(phrase@),
                !strs_view(kept@).contains(phrase@),
                forall|p: Seq<char>| p != phrase@ ==> (#[trigger] strs_view(kept@).contains(p)
                    <==> b.take(i as int).contains(p)),
            decreases self.blocked.len() - i,
        {
            let ghost t1 = b.take(i + 1);
            assert(t1 =~= b.take(i as int).push(b[i as int]));
            proof {
                assert forall|p: Seq<char>| #[trigger] t1.contains(p) <==> (b.take(i as int).contains(p) || p == b[i as int]) by {
                    lemma_contains_push(b.take(i as int), b[i as int], p);
                }
            }
            assert(b[i as int] == self.blocked@[i as int]@);
            if self.blocked[i] == *phrase {
                found = true;
            } else {
                let ghost k0 = strs_view(kept@);
                kept.push(self.blocked[i].clone());
                assert(strs_view(kept@) =~= k0.push(b[i as int]));
                proof {
                    assert forall|p: Seq<char>| #[trigger] strs_view(kept@).contains(p) <==> (k0.contains(p) || p == b[i as int]) by {
                        lemma_contains_push(k0, b[i as int], p);
                    }
                }
            }
            i += 1;
        }
        assert(b.take(self.blocked.len() as int) =~= b);
        self.blocked = kept;
        found
    }

    /// Remembers that `raw` was corrected to `corrected`.
    pub fn learn_correction(&mut self, raw: &String, corrected: &String)
        ensures
            final(self).corrections@.len() >= old(self).corrections@.len(),
            exists|i: int| 0 <= i < final(self).corrections@.len() && (#[trigger] final(self).corrections@[i]).0@ == raw@
                && final(self).corrections@[i].1@ == corrected@,
            final(self).entries == old(self).entries,
            final(self).blocked == old(self).blocked,
            final(self).clock == old(self).clock,
    {
        let mut i: usize = 0;
        while i < self.corrections.len()
            invariant
                i <= self.corrections.len(),
            decreases self.corrections.len() - i,
        {
            if self.corrections[i].0 == *raw && self.corrections[i].1 == *corrected {
                return;
            }
            i += 1;
        }
        self.corrections.push((raw.clone(), corrected.clone()));
        assert(self.corrections@[self.corrections@.len() - 1].0@ == raw@);
    }
}

/// The score recorded for `(key, phrase)`; zero without an entry.
pub open spec fn feedback_score(es: Seq<FeedbackView>, key: Seq<char>, phrase: Seq<char>) -> i64 {
    match feedback_index(es, key, phrase) {
        Some(i) => es[i].2,
        None => 0,
    }
}

proof fn lemma_feedback_index_update_other(es: Seq<FeedbackView>, i: int, v: FeedbackView, key: Seq<char>, phrase: Seq<char>)
    requires
        0 <= i < es.len(),
        !(v.0 == key && v.1 == phrase),
        !(es[i].0 == key && es[i].1 == phrase),
    ensures
        feedback_index(es.update(i, v), key, phrase) == feedback_index(es, key, phrase),
    decreases es.len(),
{
    let u = es.update(i, v);
    if i == es.len() - 1 {
        assert(u.drop_last() =~= es.drop_last());
    } else {
        assert(u.last() == es.last());
        assert(u.drop_last() =~= es.drop_last().update(i, v));
        if !(es.last().0 == key && es.last().1 == phrase) {
            lemma_feedback_index_update_other(es.drop_last(), i, v, key, phrase);
        }
    }
}

proof fn lemma_feedback_index_update_same(es: Seq<FeedbackView>, i: int, v: FeedbackView, key: Seq<char>, phrase: Seq<char>)
    requires
        feedback_index(es, key, phrase) == Some(i),
        v.0 == key && v.1 == phrase,
    ensures
        feedback_index(es.update(i, v), key, phrase) == Some(i),
    decreases es.len(),
{
    lemma_feedback_index(es, key, phrase);
    let u = es.update(i, v);
    if i != es.len() - 1 {
        assert(!(es.last().0 == key && es.last().1 == phrase));
        assert(u.last() == es.last());
        assert(u.drop_last() =~= es.drop_last().update(i, v));
        lemma_feedback_index_update_same(es.drop_last(), i, v, key, phrase);
    }
}

/// Adding feedback for `x` under `key` changes the score of `(key, q)`
/// only when `x` is `q`, and then by `delta` (saturating); an entry for
/// `(key, q)` exists afterwards exactly when it did or `x` is `q`.
pub proof fn lemma_feedback_added_score(
    es: Seq<FeedbackView>,
    key: Seq<char>,
    x: Seq<char>,
    delta: i64,
    now: u64,
    q: Seq<char>,
)
    ensures
        feedback_score(feedback_added(es, key, x, delta, now), key, q) == if x == q {
            sat_add_i64(feedback_score(es, key, q), delta)
        } else {
            feedback_score(es, key, q)
        },
        (feedback_index(feedback_added(es, key, x, delta, now), key, q) is Some) <==> (feedback_index(es, key, q) is Some
            || x == q),
{
    lemma_feedback_index(es, key, x);
    lemma_feedback_index(es, key, q);
    let r = feedback_added(es, key, x, delta, now);
    match feedback_index(es, key, x) {
        Some(i) => {
            let v = (key, x, sat_add_i64(es[i].2, delta), now);
            if x == q {
                lemma_feedback_index_update_same(es, i, v, key, q);
            } else {
                lemma_feedback_index_update_other(es, i, v, key, q);
                match feedback_index(es, key, q) {
                    Some(j) => {
                        assert(j != i);
                        assert(r[j] == es[j]);
                    },
                    None => {},
                }
            }
        },
        None => {
            let v = (key, x, delta, now);
            assert(r == es.push(v));
            assert(r.drop_last() =~= es);
            if x == q {
                assert(feedback_index(r, key, q) == Some(es.len() as int));
            } else {
                match feedback_index(es, key, q) {
                    Some(j) => {
                        assert(r[j] == es[j]);
                    },
                    None => {},
                }
            }
        },
    }
}

/// Adding a list of feedback whose phrases are distinct: a phrase it holds
/// at `j` moves by that delta, and a phrase it lacks keeps its score and
/// its absence.
pub proof fn lemma_feedback_all_score(
    es: Seq<FeedbackView>,
    key: Seq<char>,
    adj: Seq<(Seq<char>, i64)>,
    now: u64,
    q: Seq<char>,
)
    requires
        forall|a: int, b: int| 0 <= a < b < adj.len() ==> (#[trigger] adj[a]).0 != (#[trigger] adj[b]).0,
    ensures
        (forall|j: int| 0 <= j < adj.len() ==> (#[trigger] adj[j]).0 != q) ==> feedback_score(
            feedback_all(es, key, adj, now),
            key,
            q,
        ) == feedback_score(es, key, q) && ((feedback_index(feedback_all(es, key, adj, now), key, q) is Some)
            <==> (feedback_index(es, key, q) is Some)),
        forall|j: int| 0 <= j < adj.len() && (#[trigger] adj[j]).0 == q ==> feedback_score(
            feedback_all(es, key, adj, now),
            key,
            q,
        ) == sat_add_i64(feedback_score(es, key, q), adj[j].1),
    decreases adj.len(),
{
    if adj.len() > 0 {
        let d = adj.drop_last();
        lemma_feedback_all_score(es, key, d, now, q);
        let m = feedback_all(es, key, d, now);
        lemma_feedback_added_score(m, key, adj.last().0, adj.last().1, now, q);
        assert forall|j: int| 0 <= j < adj.len() && (#[trigger] adj[j]).0 == q implies feedback_score(
            feedback_all(es, key, adj, now),
            key,
            q,
        ) == sat_add_i64(feedback_score(es, key, q), adj[j].1) by {
            if j < adj.len() - 1 {
                assert(d[j] == adj[j]);
                assert(adj[j].0 != adj.last().0);
            } else {
                assert forall|k: int| 0 <= k < d.len() implies (#[trigger] d[k]).0 != q by {
                    assert(d[k] == adj[k]);
                }
            }
        }
        if forall|j: int| 0 <= j < adj.len() ==> (#[trigger] adj[j]).0 != q {
            assert forall|k: int| 0 <= k < d.len() implies (#[trigger] d[k]).0 != q by {
                assert(d[k] == adj[k]);
            }
            assert(adj[adj.len() - 1].0 != q);
        }
    }
}

/// `es` after adding each `(phrase, delta)` of `adj` under `key`, in order.
pub open spec fn feedback_all(
    es: Seq<FeedbackView>,
    key: Seq<char>,
    adj: Seq<(Seq<char>, i64)>,
    now: u64,
) -> Seq<FeedbackView>
    decreases adj.len(),
{
    if adj.len() == 0 {
        es
    } else {
        feedback_added(feedback_all(es, key, adj.drop_last(), now), key, adj.last().0, adj.last().1, now)
    }
}

pub open spec fn deltas_view(v: Seq<(String, i64)>) -> Seq<(Seq<char>, i64)> {
    v.map_values(|p: (String, i64)| (p.0@, p.1))
}

/// Adds each `(phrase, delta)` of `adj` under `key` to `v`.
pub fn add_feedback_all(v: &mut Vec<FeedbackEntry>, key: &String, adj: &Vec<(String, i64)>, now: u64)
    ensures
        feedbacks_view(final(v)@) == feedback_all(feedbacks_view(old(v)@), key@, deltas_view(adj@), now),
{
    let ghost dv = deltas_view(adj@);
    let ghost start = feedbacks_view(v@);
    let mut i: usize = 0;
    while i < adj.len()
        invariant
            i <= adj.len(),
            dv == deltas_view(adj@),
            feedbacks_view(v@) == feedback_all(start, key@, dv.take(i as int), now),
        decreases adj.len() - i,
    {
        assert(dv.take(i + 1).drop_last() =~= dv.take(i as int));
        add_feedback(v, key, &adj[i].0, adj[i].1, now);
        i += 1;
    }
    assert(dv.take(adj.len() as int) =~= dv);
}

/// No two entries pair the same reading with the same phrase.
pub open spec fn unique_entries(es: Seq<EntryView>) -> bool {
    forall|i: int, j: int|
        0 <= i < j < es.len() ==> !((#[trigger] es[i]).0 == (#[trigger] es[j]).0 && es[i].1 == es[j].1)
}

/// Removing the entry for a pair from entries that hold each pair once
/// leaves no entry for it, and still each pair once.
pub proof fn lemma_removed_absent(es: Seq<EntryView>, key: Seq<char>, phrase: Seq<char>)
    requires
        unique_entries(es),
    ensures
        !has_entry(entry_removed(es, key, phrase), key, phrase),
        unique_entries(entry_removed(es, key, phrase)),
{
    lemma_entry_index(es, key, phrase);
    let r = entry_removed(es, key, phrase);
    match entry_index(es, key, phrase) {
        Some(i) => {
            assert forall|j: int| 0 <= j < r.len() implies !((#[trigger] r[j]).0 == key && r[j].1 == phrase) by {
                if j < i {
                    assert(r[j] == es[j]);
                } else {
                    assert(r[j] == es[j + 1]);
                }
            }
            assert forall|a: int, b: int| 0 <= a < b < r.len() implies !((#[trigger] r[a]).0 == (#[trigger] r[b]).0
                && r[a].1 == r[b].1) by {
                let a0 = if a < i { a } else { a + 1 };
                let b0 = if b < i { b } else { b + 1 };
                assert(r[a] == es[a0] && r[b] == es[b0]);
            }
        },
        None => {},
    }
}

/// Pinning or unpinning keeps each reading -> phrase pair once.
pub proof fn lemma_pinned_unique(es: Seq<EntryView>, key: Seq<char>, phrase: Seq<char>, pinned: bool, now: u64)
    requires
        unique_entries(es),
    ensures
        unique_entries(entry_pinned(es, key, phrase, pinned, now)),
{
    lemma_entry_index(es, key, phrase);
    let r = entry_pinned(es, key, phrase, pinned, now);
    match entry_index(es, key, phrase) {
        Some(i) => {
            assert forall|a: int, b: int| 0 <= a < b < r.len() implies !((#[trigger] r[a]).0 == (#[trigger] r[b]).0
                && r[a].1 == r[b].1) by {
                assert(r[a].0 == es[a].0 && r[a].1 == es[a].1);
                assert(r[b].0 == es[b].0 && r[b].1 == es[b].1);
            }
        },
        None => {
            assert forall|a: int, b: int| 0 <= a < b < r.len() implies !((#[trigger] r[a]).0 == (#[trigger] r[b]).0
                && r[a].1 == r[b].1) by {
                if b < es.len() {
                    assert(r[a] == es[a] && r[b] == es[b]);
                } else {
                    assert(r[a] == es[a]);
                }
            }
        },
    }
}

/// Learning keeps each reading -> phrase pair once.
pub proof fn lemma_learned_unique(es: Seq<EntryView>, key: Seq<char>, phrase: Seq<char>, d: u64, now: u64)
    requires
        unique_entries(es),
    ensures
        unique_entries(learned(es, key, phrase, d, now)),
{
    lemma_entry_index(es, key, phrase);
    let r = learned(es, key, phrase, d, now);
    assert forall|i: int, j: int| 0 <= i < j < r.len() implies !((#[trigger] r[i]).0 == (#[trigger] r[j]).0
        && r[i].1 == r[j].1) by {
        match entry_index(es, key, phrase) {
            Some(x) => {
                assert(r[i].0 == es[i].0 && r[i].1 == es[i].1);
                assert(r[j].0 == es[j].0 && r[j].1 == es[j].1);
            },
            None => {
                if j == es.len() {
                    assert(r[i] == es[i]);
                } else {
                    assert(r[i] == es[i] && r[j] == es[j]);
                }
            },
        }
    }
}

/// Learning any sequence of steps keeps each pair once.
pub proof fn lemma_apply_learns_unique(es: Seq<EntryView>, clock: u64, ops: Seq<LearnOp>)
    requires
        unique_entries(es),
    ensures
        unique_entries(apply_learns(es, clock, ops).0),
    decreases ops.len(),
{
    if ops.len() > 0 {
        lemma_apply_learns_unique(es, clock, ops.drop_last());
        let prev = apply_learns(es, clock, ops.drop_last());
        let op = ops.last();
        lemma_learned_unique(prev.0, op.0, op.1, op.2, sat_add(prev.1, 1));
    }
}

/// Once removed, a phrase is no longer associated with the reading.
pub proof fn lemma_removed_is_gone(es: Seq<EntryView>, key: Seq<char>, phrase: Seq<char>)
    requires
        unique_entries(es),
    ensures
        !has_entry(entry_removed(es, key, phrase), key, phrase),
        forall|k: Seq<char>, q: Seq<char>|
            !(k == key && q == phrase) ==> (has_entry(#[trigger] entry_removed(es, key, phrase), k, q)
                <==> has_entry(es, k, q)),
{
    lemma_entry_index(es, key, phrase);
    let r = entry_removed(es, key, phrase);
    match entry_index(es, key, phrase) {
        Some(x) => {
            if has_entry(r, key, phrase) {
                let j = choose|j: int| 0 <= j < r.len() && (#[trigger] r[j]).0 == key && r[j].1 == phrase;
                if j < x {
                    assert(r[j] == es[j]);
                } else {
                    assert(r[j] == es[j + 1]);
                }
            }
            assert forall|k: Seq<char>, q: Seq<char>|
                !(k == key && q == phrase) implies (has_entry(#[trigger] entry_removed(es, key, phrase), k, q)
                    <==> has_entry(es, k, q)) by {
                if has_entry(r, k, q) {
                    let j = choose|j: int| 0 <= j < r.len() && (#[trigger] r[j]).0 == k && r[j].1 == q;
                    if j < x {
                        assert(es[j] == r[j]);
                    } else {
                        assert(es[j + 1] == r[j]);
                    }
                }
                if has_entry(es, k, q) {
                    let j = choose|j: int| 0 <= j < es.len() && (#[trigger] es[j]).0 == k && es[j].1 == q;
                    if j < x {
                        assert(r[j] == es[j]);
                    } else {
                        assert(j != x);
                        assert(r[j - 1] == es[j]);
                    }
                }
            }
        },
        None => {},
    }
}

/// In any ranking, every pinned phrase comes before every unpinned one.
pub proof fn lemma_pinned_first(r: Seq<usize>, es: Seq<EntryView>, blocked: Seq<Seq<char>>, key: Seq<char>)
    requires
        is_ranking(r, es, blocked, key),
    ensures
        forall|i: int, k: int|
            0 <= i < k < r.len() && es[#[trigger] r[k] as int].4 ==> es[#[trigger] r[i] as int].4,
{
    assert forall|i: int, k: int| 0 <= i < k < r.len() && es[#[trigger] r[k] as int].4 implies es[#[trigger] r[i] as int].4 by {
        assert(listed_before(es, r[i] as int, r[k] as int));
    }
}

/// No blocked phrase is ever ranked.
pub proof fn lemma_blocked_never_ranked(r: Seq<usize>, es: Seq<EntryView>, blocked: Seq<Seq<char>>, key: Seq<char>)
    requires
        is_ranking(r, es, blocked, key),
    ensures
        forall|i: int| 0 <= i < r.len() ==> !blocked.contains(es[#[trigger] r[i] as int].1),
{
    assert forall|i: int| 0 <= i < r.len() implies !blocked.contains(es[#[trigger] r[i] as int].1) by {
        assert(offered(es, blocked, key, r[i] as int));
    }
}

/// Blocking a phrase that was not blocked and then unblocking it leaves the
/// same phrases blocked as before.
pub proof fn lemma_block_unblock_round_trip(
    before: Seq<Seq<char>>,
    blocked: Seq<Seq<char>>,
    unblocked: Seq<Seq<char>>,
    phrase: Seq<char>,
)
    requires
        !before.contains(phrase),
        blocked == before.push(phrase),
        !unblocked.contains(phrase),
        forall|q: Seq<char>| q != phrase ==> (#[trigger] unblocked.contains(q) <==> blocked.contains(q)),
    ensures
        forall|q: Seq<char>| #[trigger] unblocked.contains(q) <==> before.contains(q),
{
    assert forall|q: Seq<char>| #[trigger] unblocked.contains(q) <==> before.contains(q) by {
        lemma_contains_push(before, phrase, q);
    }
}

} // verus!
