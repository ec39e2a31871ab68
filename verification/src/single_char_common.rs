//! The frequency order of common single characters, read from a list of
//! `character<TAB>weight` rows in strictly descending weight, indexed by
//! reading and by the initial of a reading.
use vstd::prelude::*;
use vstd::hash_map::StringHashMap;
use crate::dict::{
    alias_rows, alias_rows_view, parse_alias_table, pinyin_plain_options_with, plain_options,
    strings_view, PRONUNCIATION_ALIASES,
};
use crate::text::{
    chars_of, is_alpha, is_digit, lines_seq, lines_vec, lower_char, lower_of, split_once, split_once_vec,
    string_of, trim_seq, trim_start_char, trim_start_char_vec, trim_vec,
};

verus! {

/// Why a row of the list was refused.
#[derive(Clone, Copy, Debug, PartialEq, Eq, Structural)]
pub enum IndexRowProblem {
    /// The row has no tab between character and weight.
    MissingTab,
    /// The character column is empty.
    MissingCharacter,
    /// The character column holds more than one character.
    NotOneCharacter,
    /// The weight is not an unsigned 64-bit integer.
    BadWeight,
    /// The weight is not below the previous row's.
    NotDescending,
    /// The character was listed before.
    DuplicateCharacter,
    /// The character has no reading.
    NoPinyin,
}

/// Why a list was refused: a bad row (with its line number, from one), or no
/// row at all.
#[derive(Clone, Copy, Debug, PartialEq, Eq, Structural)]
pub enum IndexError {
    Row(usize, IndexRowProblem),
    Empty,
}

/// The value of a run of decimal digits.
pub open spec fn digits_value(s: Seq<char>) -> nat
    decreases s.len(),
{
    if s.len() == 0 {
        0
    } else {
        digits_value(s.drop_last()) * 10 + (s.last() as nat - '0' as nat) as nat
    }
}

pub open spec fn all_digits(s: Seq<char>) -> bool {
    forall|i: int| 0 <= i < s.len() ==> is_digit(#[trigger] s[i])
}

/// An unsigned 64-bit integer as `str::parse` reads one: an optional `+`,
/// then at least one decimal digit, and a value that fits.
pub open spec fn parse_u64(s: Seq<char>) -> Option<u64> {
    let d = if s.len() > 0 && s[0] == '+' {
        s.skip(1)
    } else {
        s
    };
    if d.len() == 0 || !all_digits(d) || digits_value(d) > u64::MAX {
        None
    } else {
        Some(digits_value(d) as u64)
    }
}

proof fn lemma_digits_value_grows(s: Seq<char>, i: int)
    requires
        all_digits(s),
        0 <= i <= s.len(),
    ensures
        digits_value(s.take(i)) <= digits_value(s),
    decreases s.len() - i,
{
    if i < s.len() {
        lemma_digits_value_grows(s, i + 1);
        assert(s.take(i + 1).drop_last() =~= s.take(i));
    } else {
        assert(s.take(i) =~= s);
    }
}

pub fn parse_u64_vec(s: &Vec<char>) -> (r: Option<u64>)
    ensures
        r == parse_u64(s@),
{
    let start: usize = if s.len() > 0 && s[0] == '+' {
        1
    } else {
        0
    };
    let ghost d = if s@.len() > 0 && s@[0] == '+' {
        s@.skip(1)
    } else {
        s@
    };
    assert(d =~= s@.skip(start as int));
    if start >= s.len() {
        return None;
    }
    let mut v: u64 = 0;
    let mut i: usize = start;
    assert(s@.subrange(start as int, start as int) =~= Seq::<char>::empty());
    while i < s.len()
        invariant
            start <= i <= s.len(),
            d =~= s@.skip(start as int),
            d == if s@.len() > 0 && s@[0] == '+' {
                s@.skip(1)
            } else {
                s@
            },
            all_digits(s@.subrange(start as int, i as int)),
            v as nat == digits_value(s@.subrange(start as int, i as int)),
        decreases s.len() - i,
    {
        let c = s[i];
        let ghost sub = s@.subrange(start as int, i + 1);
        assert(sub.drop_last() =~= s@.subrange(start as int, i as int));
        assert(sub.last() == c);
        assert(d[i - start] == c);
        if !('0' <= c && c <= '9') {
            assert(!is_digit(d[i - start]));
            return None;
        }
        let digit: u64 = (c as u32 - '0' as u32) as u64;
        assert(digit as nat == (c as nat - '0' as nat) as nat);
        assert(all_digits(sub));
        assert(digits_value(sub) == v * 10 + digit);
        if v > (u64::MAX - digit) / 10 {
            proof {
                assert(v * 10 + digit > u64::MAX) by (nonlinear_arith)
                    requires
                        v > (u64::MAX - digit) / 10,
                        digit <= 9,
                ;
                if all_digits(d) {
                    assert(sub =~= d.take(i + 1 - start));
                    lemma_digits_value_grows(d, i + 1 - start);
                }
            }
            return None;
        }
        assert(v * 10 + digit <= u64::MAX) by (nonlinear_arith)
            requires
                v <= (u64::MAX - digit) / 10,
                digit <= 9,
        ;
        v = v * 10 + digit;
        i += 1;
    }
    assert(s@.subrange(start as int, s.len() as int) =~= d);
    Some(v)
}

/// The readings of `c`, as the engine offers them.
pub open spec fn readings_of(c: char) -> Seq<Seq<char>> {
    plain_options(c, alias_rows(PRONUNCIATION_ALIASES@))
}

/// A row of the list, once the line is taken without leading byte-order
/// marks and surrounding whitespace: its character and weight, or why it is
/// refused.
pub open spec fn row_of(line: Seq<char>) -> Result<(char, u64), IndexRowProblem> {
    match split_once(line, '\t') {
        None => Err(IndexRowProblem::MissingTab),
        Some(cols) => {
            let ch = trim_seq(cols.0);
            if ch.len() == 0 {
                Err(IndexRowProblem::MissingCharacter)
            } else if ch.len() > 1 {
                Err(IndexRowProblem::NotOneCharacter)
            } else {
                match parse_u64(trim_seq(cols.1)) {
                    None => Err(IndexRowProblem::BadWeight),
                    Some(w) => Ok((ch[0], w)),
                }
            }
        },
    }
}

pub open spec fn clean_line(raw: Seq<char>) -> Seq<char> {
    trim_seq(trim_start_char(raw, '\u{feff}'))
}

/// The characters of the rows so far, in order, with the last weight; or
/// the first refused row, by its index from zero. Blank lines and `#`
/// comments are skipped.
pub open spec fn rows_scan(lines: Seq<Seq<char>>) -> Result<(Seq<char>, Option<u64>), (int, IndexRowProblem)>
    decreases lines.len(),
{
    if lines.len() == 0 {
        Ok((Seq::empty(), None))
    } else {
        match rows_scan(lines.drop_last()) {
            Err(e) => Err(e),
            Ok(st) => {
                let idx = lines.len() - 1;
                let line = clean_line(lines.last());
                if line.len() == 0 || line[0] == '#' {
                    Ok(st)
                } else {
                    match row_of(line) {
                        Err(p) => Err((idx, p)),
                        Ok(row) => {
                            if st.1 is Some && st.1->0 <= row.1 {
                                Err((idx, IndexRowProblem::NotDescending))
                            } else if st.0.contains(row.0) {
                                Err((idx, IndexRowProblem::DuplicateCharacter))
                            } else if readings_of(row.0).len() == 0 {
                                Err((idx, IndexRowProblem::NoPinyin))
                            } else {
                                Ok((st.0.push(row.0), Some(row.1)))
                            }
                        },
                    }
                }
            },
        }
    }
}

/// The characters of `chars` that have the reading `key`, in list order.
pub open spec fn order_for_reading(chars: Seq<char>, key: Seq<char>) -> Seq<char> {
    chars.filter(|c: char| key.len() > 0 && readings_of(c).contains(key))
}

/// The one-letter key of a reading's initial, when it is an ASCII letter.
pub open spec fn initial_key(r: Seq<char>) -> Option<Seq<char>> {
    if r.len() > 0 && is_alpha(r[0]) {
        Some(seq![r[0]])
    } else {
        None
    }
}

/// Some reading of `rs` has the initial `init`.
pub open spec fn has_initial(rs: Seq<Seq<char>>, init: Seq<char>) -> bool {
    exists|i: int| 0 <= i < rs.len() && #[trigger] initial_key(rs[i]) == Some(init)
}

/// The characters of `chars` with a reading whose initial is `init`.
pub open spec fn order_for_initial(chars: Seq<char>, init: Seq<char>) -> Seq<char> {
    chars.filter(|c: char| has_initial(readings_of(c), init))
}

pub open spec fn order_under(m: Map<Seq<char>, Vec<char>>, key: Seq<char>) -> Seq<char> {
    if m.contains_key(key) {
        m[key]@
    } else {
        Seq::empty()
    }
}

/// Appends `c` to the list under `key`, unless it is there already.
fn push_unique_under(m: &mut StringHashMap<Vec<char>>, key: &String, c: char)
    ensures
        order_under(final(m)@, key@) == if order_under(old(m)@, key@).contains(c) {
            order_under(old(m)@, key@)
        } else {
            order_under(old(m)@, key@).push(c)
        },
        forall|k: Seq<char>| k != key@ ==> #[trigger] order_under(final(m)@, k) == order_under(old(m)@, k),
{
    let mut list: Vec<char> = match m.get(key.as_str()) {
        Some(v) => {
            let cl = v.clone();
            assert(cl@ =~= v@);
            cl
        },
        None => Vec::new(),
    };
    assert(list@ == order_under(old(m)@, key@));
    if crate::text::contains_char(&list, c) {
        return;
    }
    list.push(c);
    m.insert(key.clone(), list);
    assert forall|k: Seq<char>| k != key@ implies #[trigger] order_under(m@, k) == order_under(old(m)@, k) by {
        assert(m@.contains_key(k) == old(m)@.contains_key(k));
    }
}

proof fn lemma_filter_subset(s: Seq<char>, f: spec_fn(char) -> bool, c: char)
    requires
        !s.contains(c),
    ensures
        !s.filter(f).contains(c),
    decreases s.len(),
{
    if s.len() == 0 {
        s.filter_lemma(f);
    } else {
        let d = s.drop_last();
        assert(!d.contains(c)) by {
            if d.contains(c) {
                let k = choose|k: int| 0 <= k < d.len() && d[k] == c;
                assert(s[k] == c);
            }
        }
        lemma_filter_subset(d, f, c);
        assert(s =~= d.push(s.last()));
        d.lemma_filter_push(s.last(), f);
        assert(s.last() != c) by {
            assert(s[s.len() - 1] == s.last());
        }
        crate::user_lexicon::lemma_contains_push(d.filter(f), s.last(), c);
    }
}

/// The lists of `chars` with the new character `c` appended under the
/// readings in `done` and under their initials.
pub open spec fn lists_with(
    bp: Map<Seq<char>, Vec<char>>,
    bi: Map<Seq<char>, Vec<char>>,
    chars: Seq<char>,
    c: char,
    done: Seq<Seq<char>>,
) -> bool {
    &&& forall|key: Seq<char>| #[trigger] order_under(bp, key) == order_for_reading(chars, key) + if key.len() > 0
        && done.contains(key) {
        seq![c]
    } else {
        Seq::empty()
    }
    &&& forall|init: Seq<char>| #[trigger] order_under(bi, init) == order_for_initial(chars, init) + if has_initial(
        done,
        init,
    ) {
        seq![c]
    } else {
        Seq::empty()
    }
}

/// Lists `c` under the reading `k` and its initial.
fn add_reading(
    bp: &mut StringHashMap<Vec<char>>,
    bi: &mut StringHashMap<Vec<char>>,
    chars: &Vec<char>,
    c: char,
    Ghost(done): Ghost<Seq<Seq<char>>>,
    k: &String,
)
    requires
        !chars@.contains(c),
        lists_with(old(bp)@, old(bi)@, chars@, c, done),
    ensures
        lists_with(final(bp)@, final(bi)@, chars@, c, done.push(k@)),
{
    let ghost t1 = done.push(k@);
    proof {
        assert forall|key: Seq<char>| #[trigger] t1.contains(key) <==> (done.contains(key) || key == k@) by {
            crate::user_lexicon::lemma_contains_push(done, k@, key);
        }
        assert forall|init: Seq<char>| #[trigger] has_initial(t1, init) <==> (has_initial(done, init) || initial_key(k@) == Some(init)) by {
            if has_initial(t1, init) {
                let i = choose|i: int| 0 <= i < t1.len() && #[trigger] initial_key(t1[i]) == Some(init);
                if i < done.len() {
                    assert(t1[i] == done[i]);
                }
            }
            if has_initial(done, init) {
                let i = choose|i: int| 0 <= i < done.len() && #[trigger] initial_key(done[i]) == Some(init);
                assert(t1[i] == done[i]);
            }
            if initial_key(k@) == Some(init) {
                assert(t1[done.len() as int] == k@);
            }
        }
    }
    let ghost bp0 = bp@;
    let ghost bi0 = bi@;
    let kc = chars_of(k.as_str());
    if kc.len() > 0 {
        proof {
            lemma_not_in_reading_order(chars@, c, k@);
        }
        push_unique_under(bp, k, c);
        proof {
            assert forall|key: Seq<char>| #[trigger] order_under(bp@, key) == order_for_reading(chars@, key) + if key.len() > 0
                && t1.contains(key) {
                seq![c]
            } else {
                Seq::empty()
            } by {
                let fk = order_for_reading(chars@, key);
                assert(fk + Seq::<char>::empty() =~= fk);
                assert(fk + seq![c] =~= fk.push(c));
                if key == k@ {
                    if done.contains(key) {
                        assert((fk + seq![c])[fk.len() as int] == c);
                    } else {
                        assert(!fk.contains(c));
                    }
                }
            }
        }
        if crate::text::is_alpha_char(kc[0]) {
            let mut one: Vec<char> = Vec::new();
            one.push(kc[0]);
            assert(one@ =~= seq![kc@[0]]);
            let init = string_of(&one);
            assert(initial_key(k@) == Some(init@));
            proof {
                lemma_not_in_initial_order(chars@, c, init@);
            }
            push_unique_under(bi, &init, c);
            proof {
                assert forall|ini: Seq<char>| #[trigger] order_under(bi@, ini) == order_for_initial(chars@, ini) + if has_initial(
                    t1,
                    ini,
                ) {
                    seq![c]
                } else {
                    Seq::empty()
                } by {
                    let fk = order_for_initial(chars@, ini);
                    assert(fk + Seq::<char>::empty() =~= fk);
                    assert(fk + seq![c] =~= fk.push(c));
                    if ini == init@ {
                        if has_initial(done, ini) {
                            assert((fk + seq![c])[fk.len() as int] == c);
                        } else {
                            assert(!fk.contains(c));
                        }
                    }
                }
            }
        } else {
            assert(initial_key(k@) is None);
        }
    } else {
        assert(initial_key(k@) is None);
    }
}

proof fn lemma_not_in_reading_order(chars: Seq<char>, c: char, key: Seq<char>)
    requires
        !chars.contains(c),
    ensures
        !order_for_reading(chars, key).contains(c),
{
    lemma_filter_subset(chars, |d: char| key.len() > 0 && readings_of(d).contains(key), c);
}

proof fn lemma_not_in_initial_order(chars: Seq<char>, c: char, init: Seq<char>)
    requires
        !chars.contains(c),
    ensures
        !order_for_initial(chars, init).contains(c),
{
    lemma_filter_subset(chars, |d: char| has_initial(readings_of(d), init), c);
}

/// Lists `c`, which is new, under each of its readings and initials.
fn add_character(
    by_pinyin: &mut StringHashMap<Vec<char>>,
    by_initial: &mut StringHashMap<Vec<char>>,
    chars: &Vec<char>,
    c: char,
    readings: &Vec<String>,
)
    requires
        !chars@.contains(c),
        strings_view(readings@) == readings_of(c),
        forall|key: Seq<char>| #[trigger] order_under(old(by_pinyin)@, key) == order_for_reading(chars@, key),
        forall|init: Seq<char>| #[trigger] order_under(old(by_initial)@, init) == order_for_initial(chars@, init),
    ensures
        forall|key: Seq<char>| #[trigger] order_under(final(by_pinyin)@, key) == order_for_reading(chars@.push(c), key),
        forall|init: Seq<char>| #[trigger] order_under(final(by_initial)@, init) == order_for_initial(chars@.push(c), init),
{
    let ghost rv = strings_view(readings@);
    proof {
        assert(rv.take(0) =~= Seq::<Seq<char>>::empty());
        assert forall|key: Seq<char>| #[trigger] order_under(by_pinyin@, key) == order_for_reading(chars@, key) + if key.len() > 0
            && rv.take(0).contains(key) {
            seq![c]
        } else {
            Seq::empty()
        } by {
            assert(order_for_reading(chars@, key) + Seq::<char>::empty() =~= order_for_reading(chars@, key));
        }
        assert forall|init: Seq<char>| #[trigger] order_under(by_initial@, init) == order_for_initial(chars@, init) + if has_initial(
            rv.take(0),
            init,
        ) {
            seq![c]
        } else {
            Seq::empty()
        } by {
            assert(order_for_initial(chars@, init) + Seq::<char>::empty() =~= order_for_initial(chars@, init));
        }
    }
    let mut j: usize = 0;
    while j < readings.len()
        invariant
            j <= readings.len(),
            rv == strings_view(readings@),
            !chars@.contains(c),
            lists_with(by_pinyin@, by_initial@, chars@, c, rv.take(j as int)),
        decreases readings.len() - j,
    {
        assert(rv.take(j + 1) =~= rv.take(j as int).push(rv[j as int]));
        assert(readings@[j as int]@ == rv[j as int]);
        add_reading(by_pinyin, by_initial, chars, c, Ghost(rv.take(j as int)), &readings[j]);
        j += 1;
    }
    assert(rv.take(readings.len() as int) =~= rv);
    proof {
        assert forall|key: Seq<char>| #[trigger] order_under(by_pinyin@, key) == order_for_reading(chars@.push(c), key) by {
            let f = |d: char| key.len() > 0 && readings_of(d).contains(key);
            chars@.lemma_filter_push(c, f);
            assert(order_for_reading(chars@, key) + Seq::<char>::empty() =~= order_for_reading(chars@, key));
            assert(order_for_reading(chars@, key) + seq![c] =~= order_for_reading(chars@, key).push(c));
        }
        assert forall|init: Seq<char>| #[trigger] order_under(by_initial@, init) == order_for_initial(chars@.push(c), init) by {
            let f = |d: char| has_initial(readings_of(d), init);
            chars@.lemma_filter_push(c, f);
            assert(order_for_initial(chars@, init) + Seq::<char>::empty() =~= order_for_initial(chars@, init));
            assert(order_for_initial(chars@, init) + seq![c] =~= order_for_initial(chars@, init).push(c));
        }
    }
}

fn parse_row(line: &Vec<char>) -> (r: Result<(char, u64), IndexRowProblem>)
    ensures
        r == row_of(line@),
{
    let cols = match split_once_vec(line, '\t') {
        None => {
            return Err(IndexRowProblem::MissingTab);
        },
        Some(cols) => cols,
    };
    let ch = trim_vec(&cols.0);
    if ch.len() == 0 {
        return Err(IndexRowProblem::MissingCharacter);
    }
    if ch.len() > 1 {
        return Err(IndexRowProblem::NotOneCharacter);
    }
    match parse_u64_vec(&trim_vec(&cols.1)) {
        None => Err(IndexRowProblem::BadWeight),
        Some(w) => Ok((ch[0], w)),
    }
}

fn clean_line_vec(raw: &Vec<char>) -> (r: Vec<char>)
    ensures
        r@ == clean_line(raw@),
{
    trim_vec(&trim_start_char_vec(raw, '\u{feff}'))
}

/// Once a row is refused, the rest of the list does not matter.
proof fn lemma_rows_scan_err_stays(ls: Seq<Seq<char>>, n: int)
    requires
        0 <= n <= ls.len(),
        rows_scan(ls.take(n)) is Err,
    ensures
        rows_scan(ls) == rows_scan(ls.take(n)),
    decreases ls.len() - n,
{
    if n < ls.len() {
        assert(ls.take(n + 1).drop_last() =~= ls.take(n));
        lemma_rows_scan_err_stays(ls, n + 1);
    } else {
        assert(ls.take(n) =~= ls);
    }
}

pub struct SingleCharCommonIndex {
    by_pinyin: StringHashMap<Vec<char>>,
    by_initial: StringHashMap<Vec<char>>,
    character_count: usize,
}

impl SingleCharCommonIndex {
    /// The characters listed under `key`.
    pub closed spec fn reading_order(&self, key: Seq<char>) -> Seq<char> {
        order_under(self.by_pinyin@, key)
    }

    /// The characters listed under the one-letter key `init`.
    pub closed spec fn initial_order_v(&self, init: Seq<char>) -> Seq<char> {
        order_under(self.by_initial@, init)
    }

    pub closed spec fn count(&self) -> nat {
        self.character_count as nat
    }

    /// Reads the list `text`. A refused row gives its line number and
    /// problem; a list without rows is refused as empty. Otherwise each
    /// reading lists the characters that have it, and each initial those with
    /// a reading that starts with it, in the order of the list.
    pub fn from_text(text: &str) -> (r: Result<Self, IndexError>)
        ensures
            match rows_scan(lines_seq(text@)) {
                Err((i, p)) => r == Err::<Self, IndexError>(IndexError::Row((i + 1) as usize, p)),
                Ok(st) => if st.0.len() == 0 {
                    r == Err::<Self, IndexError>(IndexError::Empty)
                } else {
                    r is Ok && (forall|key: Seq<char>| #[trigger] r->Ok_0.reading_order(key) == order_for_reading(st.0, key))
                        && (forall|init: Seq<char>| #[trigger] r->Ok_0.initial_order_v(init) == order_for_initial(st.0, init))
                        && r->Ok_0.count() == st.0.len()
                },
            },
    {
        let rows = parse_alias_table(PRONUNCIATION_ALIASES);
        assert(alias_rows_view(rows@) == alias_rows(PRONUNCIATION_ALIASES@));
        let lines = lines_vec(&chars_of(text));
        let ghost ls = lines@.map_values(|v: Vec<char>| v@);
        let mut by_pinyin: StringHashMap<Vec<char>> = StringHashMap::new();
        let mut by_initial: StringHashMap<Vec<char>> = StringHashMap::new();
        let mut chars: Vec<char> = Vec::new();
        let mut previous: Option<u64> = None;
        let mut i: usize = 0;
        while i < lines.len()
            invariant
                i <= lines.len(),
                ls == lines@.map_values(|v: Vec<char>| v@),
                ls == lines_seq(text@),
                alias_rows_view(rows@) == alias_rows(PRONUNCIATION_ALIASES@),
                rows_scan(ls.take(i as int)) == Ok::<(Seq<char>, Option<u64>), (int, IndexRowProblem)>((chars@, previous)),
                chars@.len() <= i,
                forall|key: Seq<char>| #[trigger] order_under(by_pinyin@, key) == order_for_reading(chars@, key),
                forall|init: Seq<char>| #[trigger] order_under(by_initial@, init) == order_for_initial(chars@, init),
            decreases lines.len() - i,
        {
            assert(ls.take(i + 1).drop_last() =~= ls.take(i as int));
            assert(ls.take(i + 1).last() == lines@[i as int]@);
            let line = clean_line_vec(&lines[i]);
            if line.len() == 0 || line[0] == '#' {
                i += 1;
                continue;
            }
            let row = parse_row(&line);
            let (c, weight) = match row {
                Err(p) => {
                    proof {
                        lemma_rows_scan_err_stays(ls, i + 1);
                    }
                    return Err(IndexError::Row(i + 1, p));
                },
                Ok(cw) => cw,
            };
            let problem: Option<IndexRowProblem> = match previous {
                Some(p) => if p <= weight {
                    Some(IndexRowProblem::NotDescending)
                } else {
                    None
                },
                None => None,
            };
            let problem = match problem {
                Some(p) => Some(p),
                None => if crate::text::contains_char(&chars, c) {
                    Some(IndexRowProblem::DuplicateCharacter)
                } else {
                    None
                },
            };
            if let Some(p) = problem {
                proof {
                    lemma_rows_scan_err_stays(ls, i + 1);
                }
                return Err(IndexError::Row(i + 1, p));
            }
            let readings = pinyin_plain_options_with(c, &rows);
            if readings.len() == 0 {
                proof {
                    lemma_rows_scan_err_stays(ls, i + 1);
                }
                return Err(IndexError::Row(i + 1, IndexRowProblem::NoPinyin));
            }
            add_character(&mut by_pinyin, &mut by_initial, &chars, c, &readings);
            chars.push(c);
            previous = Some(weight);
            i += 1;
        }
        assert(ls.take(lines.len() as int) =~= ls);
        if chars.len() == 0 {
            return Err(IndexError::Empty);
        }
        Ok(SingleCharCommonIndex { by_pinyin, by_initial, character_count: chars.len() })
    }

    /// The characters with reading `key`, in frequency order.
    pub fn pinyin_order(&self, key: &str) -> (r: Vec<char>)
        ensures
            r@ == self.reading_order(key@),
    {
        match self.by_pinyin.get(key) {
            Some(v) => {
                let c = v.clone();
                assert(c@ =~= v@);
                c
            },
            None => Vec::new(),
        }
    }

    /// The characters with a reading whose initial is `initial`, ASCII
    /// lower-cased, in frequency order.
    pub fn initial_order(&self, initial: char) -> (r: Vec<char>)
        ensures
            r@ == self.initial_order_v(seq![lower_char(initial)]),
    {
        let mut k: Vec<char> = Vec::new();
        k.push(lower_of(initial));
        assert(k@ =~= seq![lower_char(initial)]);
        let ks = string_of(&k);
        match self.by_initial.get(ks.as_str()) {
            Some(v) => {
                let c = v.clone();
                assert(c@ =~= v@);
                c
            },
            None => Vec::new(),
        }
    }

    /// How many characters the list holds.
    pub fn character_count(&self) -> (r: usize)
        ensures
            r == self.count(),
    {
        self.character_count
    }
}

} // verus!
