//! The phrase lexicon: rows of `phrase<TAB>reading<TAB>weight`, and the
//! phrases it offers for a lookup key, the heaviest first.
use vstd::prelude::*;
use crate::engine::{compact_key, compact_key_vec};
use crate::frequency_order::{frequency_sorted, sorted_by_frequency};
use crate::postprocess::dedup_preserved_phrase_order;
use crate::single_char_common::{parse_u64, parse_u64_vec};
use crate::text::{
    lower_char,
    chars_of, is_alpha, is_alpha_char, lines_seq, lines_vec, lower_seq, lower_vec, slice_vec, split_seq, split_vec,
    string_of, trim_seq, trim_vec,
};
use crate::user_lexicon::strs_view;

verus! {

/// One lexicon row: a phrase, the lookup key of its reading, and its weight.
pub struct PhraseEntry {
    pub phrase: String,
    pub key: String,
    pub weight: u64,
}

pub open spec fn entry_view(e: PhraseEntry) -> (Seq<char>, Seq<char>, u64) {
    (e.phrase@, e.key@, e.weight)
}

pub open spec fn entries_view(v: Seq<PhraseEntry>) -> Seq<(Seq<char>, Seq<char>, u64)> {
    v.map_values(|e: PhraseEntry| entry_view(e))
}

/// The row a lexicon line holds, if any. Blank lines and lines that start
/// with `#` (after trimming) hold none; any other line holds one when it has
/// exactly three tab-separated fields: a phrase, which trimmed is not empty,
/// a reading whose lookup key is not empty, and a decimal weight that fits
/// in a `u64`.
pub open spec fn lexicon_row(line: Seq<char>) -> Option<(Seq<char>, Seq<char>, u64)> {
    let t = trim_seq(line);
    let f = split_seq(t, '\t');
    if t.len() == 0 || t[0] == '#' || f.len() != 3 {
        None
    } else {
        let p = trim_seq(f[0]);
        let k = compact_key(f[1]);
        match parse_u64(trim_seq(f[2])) {
            Some(w) => if p.len() > 0 && k.len() > 0 {
                Some((p, k, w))
            } else {
                None
            },
            None => None,
        }
    }
}

/// The rows of `lines`, in order.
pub open spec fn lexicon_rows(lines: Seq<Seq<char>>) -> Seq<(Seq<char>, Seq<char>, u64)>
    decreases lines.len(),
{
    if lines.len() == 0 {
        Seq::empty()
    } else {
        let prev = lexicon_rows(lines.drop_last());
        match lexicon_row(lines.last()) {
            Some(r) => prev.push(r),
            None => prev,
        }
    }
}

/// The rows of a lexicon text.
pub open spec fn parse_lexicon(text: Seq<char>) -> Seq<(Seq<char>, Seq<char>, u64)> {
    lexicon_rows(lines_seq(text))
}

/// The first letter of each run of ASCII letters in `s`, in order.
pub open spec fn initials(s: Seq<char>) -> Seq<char>
    decreases s.len(),
{
    if s.len() == 0 {
        s
    } else {
        let p = initials(s.drop_last());
        if is_alpha(s.last()) && (s.len() == 1 || !is_alpha(s[s.len() - 2])) {
            p.push(s.last())
        } else {
            p
        }
    }
}

/// The abbreviation of a reading: the initials of its syllables,
/// lower-cased.
pub open spec fn abbreviation_key(reading: Seq<char>) -> Seq<char> {
    lower_seq(initials(reading))
}

/// The row a lexicon line holds under the abbreviation of its reading: the
/// row of `lexicon_row`, filed under the initials of its syllables instead,
/// when it has at least two syllables.
pub open spec fn abbreviation_row(line: Seq<char>) -> Option<(Seq<char>, Seq<char>, u64)> {
    match lexicon_row(line) {
        Some(r) => {
            let a = abbreviation_key(split_seq(trim_seq(line), '\t')[1]);
            if a.len() >= 2 {
                Some((r.0, a, r.2))
            } else {
                None
            }
        },
        None => None,
    }
}

pub open spec fn abbreviation_rows(lines: Seq<Seq<char>>) -> Seq<(Seq<char>, Seq<char>, u64)>
    decreases lines.len(),
{
    if lines.len() == 0 {
        Seq::empty()
    } else {
        let prev = abbreviation_rows(lines.drop_last());
        match abbreviation_row(lines.last()) {
            Some(r) => prev.push(r),
            None => prev,
        }
    }
}

/// The rows of a lexicon text filed under the abbreviations of their
/// readings.
pub open spec fn parse_lexicon_abbreviations(text: Seq<char>) -> Seq<(Seq<char>, Seq<char>, u64)> {
    abbreviation_rows(lines_seq(text))
}

fn initials_vec(s: &Vec<char>) -> (r: Vec<char>)
    ensures
        r@ == initials(s@),
{
    let mut out: Vec<char> = Vec::new();
    let mut i: usize = 0;
    while i < s.len()
        invariant
            i <= s.len(),
            out@ == initials(s@.take(i as int)),
        decreases s.len() - i,
    {
        let ghost t = s@.take(i + 1);
        assert(t.drop_last() =~= s@.take(i as int));
        assert(t.last() == s@[i as int]);
        if i > 0 {
            assert(t[t.len() - 2] == s@[i - 1]);
        }
        if is_alpha_char(s[i]) && (i == 0 || !is_alpha_char(s[i - 1])) {
            out.push(s[i]);
        }
        i += 1;
    }
    assert(s@.take(s.len() as int) =~= s@);
    out
}

fn abbreviation_of_line(line: &Vec<char>) -> (r: Option<PhraseEntry>)
    ensures
        match r {
            Some(e) => abbreviation_row(line@) == Some(entry_view(e)),
            None => abbreviation_row(line@) is None,
        },
{
    match row_of_line(line) {
        None => None,
        Some(e) => {
            let t = trim_vec(line);
            let f = split_vec(&t, '\t');
            let ghost fv = f@.map_values(|v: Vec<char>| v@);
            assert(fv.len() == f.len());
            assert(f.len() == 3);
            assert(fv[1] == f@[1]@);
            let a = lower_vec(&initials_vec(&f[1]));
            if a.len() >= 2 {
                Some(PhraseEntry { phrase: e.phrase, key: string_of(&a), weight: e.weight })
            } else {
                None
            }
        },
    }
}

/// The rows of a lexicon text under the abbreviations of their readings.
pub fn parse_lexicon_abbreviations_text(text: &str) -> (r: Vec<PhraseEntry>)
    ensures
        entries_view(r@) == parse_lexicon_abbreviations(text@),
{
    let chars = chars_of(text);
    let lines = lines_vec(&chars);
    let ghost ls = lines@.map_values(|v: Vec<char>| v@);
    let mut out: Vec<PhraseEntry> = Vec::new();
    let mut i: usize = 0;
    while i < lines.len()
        invariant
            i <= lines.len(),
            ls == lines@.map_values(|v: Vec<char>| v@),
            entries_view(out@) == abbreviation_rows(ls.take(i as int)),
        decreases lines.len() - i,
    {
        assert(ls.take(i + 1).drop_last() =~= ls.take(i as int));
        assert(ls.take(i + 1).last() == lines@[i as int]@);
        match abbreviation_of_line(&lines[i]) {
            Some(e) => {
                let ghost before = entries_view(out@);
                out.push(e);
                assert(entries_view(out@) =~= before.push(entry_view(e)));
            },
            None => {},
        }
        i += 1;
    }
    assert(ls.take(lines.len() as int) =~= ls);
    assert(ls == lines_seq(chars@));
    out
}

/// The most syllables a reading may have to be filed under its mixed keys.
pub const MAX_MIXED_SYLLABLES: usize = 4;

pub type Typing = (Seq<char>, bool, bool);

/// Every way to type the syllables `sylls` in order, each lower-cased and
/// either in full or by its first letter: the key typed, whether some
/// syllable is typed in full, and whether some is typed by its first letter.
/// The last syllable in full comes before the last syllable by its letter.
/// The first letter of `x`, as a sequence (empty where `x` is).
pub open spec fn first_letter(x: Seq<char>) -> Seq<char> {
    if x.len() == 0 {
        x
    } else {
        seq![x[0]]
    }
}

pub open spec fn typings(sylls: Seq<Seq<char>>) -> Seq<Typing>
    decreases sylls.len(),
{
    if sylls.len() == 0 {
        seq![(Seq::<char>::empty(), false, false)]
    } else {
        let prev = typings(sylls.drop_last());
        let x = lower_seq(sylls.last());
        prev.map_values(|t: Typing| (t.0 + x, true, t.2)) + prev.map_values(
            |t: Typing| (t.0 + first_letter(x), t.1, true),
        )
    }
}

/// A typing with some syllables in full and some by their first letter.
pub open spec fn mixed_pred() -> spec_fn(Typing) -> bool {
    |t: Typing| t.1 && t.2
}

/// The mixed keys of a reading of two to `MAX_MIXED_SYLLABLES`
/// space-separated syllables: the keys typed with some syllables in full and
/// the others by their first letter.
pub open spec fn mixed_keys_of(reading: Seq<char>) -> Seq<Seq<char>> {
    let sylls = split_seq(reading, ' ');
    if 2 <= sylls.len() <= MAX_MIXED_SYLLABLES {
        typings(sylls).filter(mixed_pred()).map_values(|t: Typing| t.0)
    } else {
        Seq::empty()
    }
}

/// The rows a lexicon line holds under the mixed keys of its reading.
pub open spec fn mixed_rows_of_line(line: Seq<char>) -> Seq<(Seq<char>, Seq<char>, u64)> {
    match lexicon_row(line) {
        Some(r) => mixed_keys_of(split_seq(trim_seq(line), '\t')[1]).map_values(
            |k: Seq<char>| (r.0, k, r.2),
        ),
        None => Seq::empty(),
    }
}

pub open spec fn mixed_rows(lines: Seq<Seq<char>>) -> Seq<(Seq<char>, Seq<char>, u64)>
    decreases lines.len(),
{
    if lines.len() == 0 {
        Seq::empty()
    } else {
        mixed_rows(lines.drop_last()) + mixed_rows_of_line(lines.last())
    }
}

/// The rows of a lexicon text filed under the mixed keys of their readings.
pub open spec fn parse_lexicon_mixed(text: Seq<char>) -> Seq<(Seq<char>, Seq<char>, u64)> {
    mixed_rows(lines_seq(text))
}

pub open spec fn typing_views(v: Seq<(Vec<char>, bool, bool)>) -> Seq<Typing> {
    v.map_values(|t: (Vec<char>, bool, bool)| (t.0@, t.1, t.2))
}

fn concat_vec(a: &Vec<char>, b: &Vec<char>) -> (r: Vec<char>)
    ensures
        r@ == a@ + b@,
{
    let mut out: Vec<char> = Vec::new();
    let mut i: usize = 0;
    while i < a.len()
        invariant
            i <= a.len(),
            out@ == a@.take(i as int),
        decreases a.len() - i,
    {
        out.push(a[i]);
        i += 1;
    }
    let mut j: usize = 0;
    while j < b.len()
        invariant
            j <= b.len(),
            out@ == a@ + b@.take(j as int),
        decreases b.len() - j,
    {
        out.push(b[j]);
        j += 1;
    }
    assert(a@.take(a.len() as int) =~= a@);
    assert(b@.take(b.len() as int) =~= b@);
    out
}

fn typings_vec(sylls: &Vec<Vec<char>>) -> (r: Vec<(Vec<char>, bool, bool)>)
    requires
        sylls.len() <= MAX_MIXED_SYLLABLES,
    ensures
        typing_views(r@) == typings(sylls@.map_values(|v: Vec<char>| v@)),
{
    let ghost sv = sylls@.map_values(|v: Vec<char>| v@);
    let mut cur: Vec<(Vec<char>, bool, bool)> = Vec::new();
    cur.push((Vec::new(), false, false));
    assert(sv.take(0) =~= Seq::<Seq<char>>::empty());
    assert(typing_views(cur@) =~= typings(sv.take(0)));
    let mut i: usize = 0;
    while i < sylls.len()
        invariant
            i <= sylls.len() <= MAX_MIXED_SYLLABLES,
            sv == sylls@.map_values(|v: Vec<char>| v@),
            typing_views(cur@) == typings(sv.take(i as int)),
        decreases sylls.len() - i,
    {
        let ghost prev = typings(sv.take(i as int));
        assert(sv.take(i + 1).drop_last() =~= sv.take(i as int));
        assert(sv.take(i + 1).last() == sylls@[i as int]@);
        let x = lower_vec(&sylls[i]);
        let first = if x.len() > 0 {
            slice_vec(&x, 0, 1)
        } else {
            Vec::new()
        };
        assert(first@ =~= first_letter(x@));
        let mut next: Vec<(Vec<char>, bool, bool)> = Vec::new();
        let mut j: usize = 0;
        while j < cur.len()
            invariant
                j <= cur.len(),
                prev == typing_views(cur@),
                typing_views(next@) =~= prev.take(j as int).map_values(|t: Typing| (t.0 + x@, true, t.2)),
            decreases cur.len() - j,
        {
            let k = concat_vec(&cur[j].0, &x);
            let ghost before = typing_views(next@);
            next.push((k, true, cur[j].2));
            assert(typing_views(next@) =~= before.push((cur@[j as int].0@ + x@, true, cur@[j as int].2)));
            assert(prev.take(j + 1) =~= prev.take(j as int).push(prev[j as int]));
            j += 1;
        }
        assert(prev.take(cur.len() as int) =~= prev);
        let ghost full_part = typing_views(next@);
        let mut j: usize = 0;
        while j < cur.len()
            invariant
                j <= cur.len(),
                prev == typing_views(cur@),
                typing_views(next@) =~= full_part + prev.take(j as int).map_values(
                    |t: Typing| (t.0 + first@, t.1, true),
                ),
            decreases cur.len() - j,
        {
            let k = concat_vec(&cur[j].0, &first);
            let ghost before = typing_views(next@);
            next.push((k, cur[j].1, true));
            assert(typing_views(next@) =~= before.push((cur@[j as int].0@ + first@, cur@[j as int].1, true)));
            assert(prev.take(j + 1) =~= prev.take(j as int).push(prev[j as int]));
            j += 1;
        }
        assert(typing_views(next@) =~= typings(sv.take(i + 1)));
        cur = next;
        i += 1;
    }
    assert(sv.take(sylls.len() as int) =~= sv);
    cur
}

pub open spec fn mixed_pairs(ts: Seq<Typing>, r: (Seq<char>, Seq<char>, u64)) -> Seq<(Seq<char>, Seq<char>, u64)> {
    ts.filter(mixed_pred()).map_values(|t: Typing| (r.0, t.0, r.2))
}

fn push_mixed_rows_of_line(line: &Vec<char>, out: &mut Vec<PhraseEntry>)
    ensures
        entries_view(final(out)@) == entries_view(old(out)@) + mixed_rows_of_line(line@),
{
    match row_of_line(line) {
        None => {
            assert(entries_view(out@) =~= entries_view(out@) + mixed_rows_of_line(line@));
        },
        Some(e) => {
            let t = trim_vec(line);
            let f = split_vec(&t, '\t');
            let ghost fv = f@.map_values(|v: Vec<char>| v@);
            assert(fv.len() == f.len());
            assert(f.len() == 3);
            assert(fv[1] == f@[1]@);
            let sylls = split_vec(&f[1], ' ');
            let ghost sv = sylls@.map_values(|v: Vec<char>| v@);
            assert(sv.len() == sylls.len());
            let ghost r = entry_view(e);
            if sylls.len() >= 2 && sylls.len() <= MAX_MIXED_SYLLABLES {
                let ts = typings_vec(&sylls);
                let ghost tv = typing_views(ts@);
                let ghost before = entries_view(out@);
                let mut j: usize = 0;
                assert(tv.take(0).filter(mixed_pred()) =~= Seq::<Typing>::empty());
                assert(before =~= before + mixed_pairs(tv.take(0), r));
                while j < ts.len()
                    invariant
                        j <= ts.len(),
                        tv == typing_views(ts@),
                        r == entry_view(e),
                        entries_view(out@) == before + mixed_pairs(tv.take(j as int), r),
                    decreases ts.len() - j,
                {
                    proof {
                        assert(tv.take(j + 1) =~= tv.take(j as int).push(tv[j as int]));
                        tv.take(j as int).lemma_filter_push(tv[j as int], mixed_pred());
                    }
                    if ts[j].1 && ts[j].2 {
                        let ghost o = entries_view(out@);
                        let k = string_of(&ts[j].0);
                        out.push(PhraseEntry { phrase: e.phrase.clone(), key: k, weight: e.weight });
                        assert(entries_view(out@) =~= o.push((e.phrase@, ts@[j as int].0@, e.weight)));
                        assert(mixed_pairs(tv.take(j + 1), r) =~= mixed_pairs(tv.take(j as int), r).push(
                            (r.0, tv[j as int].0, r.2),
                        ));
                    }
                    j += 1;
                }
                assert(tv.take(ts.len() as int) =~= tv);
                assert(mixed_pairs(tv, r) =~= mixed_keys_of(fv[1]).map_values(|k: Seq<char>| (r.0, k, r.2)));
            } else {
                assert(mixed_keys_of(fv[1]) =~= Seq::<Seq<char>>::empty());
                assert(entries_view(out@) =~= entries_view(out@) + mixed_rows_of_line(line@));
            }
        },
    }
}

/// The rows of a lexicon text under the mixed keys of their readings.
pub fn parse_lexicon_mixed_text(text: &str) -> (r: Vec<PhraseEntry>)
    ensures
        entries_view(r@) == parse_lexicon_mixed(text@),
{
    let chars = chars_of(text);
    let lines = lines_vec(&chars);
    let ghost ls = lines@.map_values(|v: Vec<char>| v@);
    let mut out: Vec<PhraseEntry> = Vec::new();
    let mut i: usize = 0;
    assert(entries_view(out@) =~= mixed_rows(ls.take(0)));
    while i < lines.len()
        invariant
            i <= lines.len(),
            ls == lines@.map_values(|v: Vec<char>| v@),
            entries_view(out@) == mixed_rows(ls.take(i as int)),
        decreases lines.len() - i,
    {
        assert(ls.take(i + 1).drop_last() =~= ls.take(i as int));
        assert(ls.take(i + 1).last() == lines@[i as int]@);
        push_mixed_rows_of_line(&lines[i], &mut out);
        i += 1;
    }
    assert(ls.take(lines.len() as int) =~= ls);
    assert(ls == lines_seq(chars@));
    out
}

/// Syllables written one after another, a space between two.
pub open spec fn spaced(sylls: Seq<Seq<char>>) -> Seq<char>
    decreases sylls.len(),
{
    if sylls.len() == 0 {
        Seq::empty()
    } else if sylls.len() == 1 {
        sylls[0]
    } else {
        spaced(sylls.drop_last()) + seq![' '] + sylls.last()
    }
}

proof fn lemma_initials_letter_run(x: Seq<char>, b: Seq<char>)
    requires
        b.len() > 0,
        forall|i: int| 0 <= i < b.len() ==> is_alpha(#[trigger] b[i]),
        x.len() == 0 || !is_alpha(x.last()),
    ensures
        initials(x + b) == initials(x).push(b[0]),
    decreases b.len(),
{
    let s = x + b;
    if b.len() == 1 {
        assert(s.drop_last() =~= x);
    } else {
        lemma_initials_letter_run(x, b.drop_last());
        assert(s.drop_last() =~= x + b.drop_last());
        assert(s[s.len() - 2] == b[b.len() - 2]);
    }
}

/// The abbreviation of a reading written as syllables of ASCII letters
/// with a space between two is the first letter of each syllable,
/// lower-cased, in order.
pub proof fn lemma_abbreviation_of_spaced_syllables(sylls: Seq<Seq<char>>)
    requires
        forall|i: int| 0 <= i < sylls.len() ==> (#[trigger] sylls[i]).len() > 0,
        forall|i: int, j: int| 0 <= i < sylls.len() && 0 <= j < sylls[i].len() ==> is_alpha(#[trigger] sylls[i][j]),
    ensures
        abbreviation_key(spaced(sylls)) == sylls.map_values(|x: Seq<char>| lower_char(x[0])),
{
    lemma_initials_of_spaced(sylls);
    assert(abbreviation_key(spaced(sylls)) =~= sylls.map_values(|x: Seq<char>| lower_char(x[0])));
}

proof fn lemma_initials_of_spaced(sylls: Seq<Seq<char>>)
    requires
        forall|i: int| 0 <= i < sylls.len() ==> (#[trigger] sylls[i]).len() > 0,
        forall|i: int, j: int| 0 <= i < sylls.len() && 0 <= j < sylls[i].len() ==> is_alpha(#[trigger] sylls[i][j]),
    ensures
        initials(spaced(sylls)) == sylls.map_values(|x: Seq<char>| x[0]),
    decreases sylls.len(),
{
    if sylls.len() == 0 {
        assert(sylls.map_values(|x: Seq<char>| x[0]) =~= Seq::<char>::empty());
    } else if sylls.len() == 1 {
        let e = Seq::<char>::empty();
        assert(e + sylls[0] =~= sylls[0]);
        assert forall|j: int| 0 <= j < sylls[0].len() implies is_alpha(#[trigger] sylls[0][j]) by {
            assert(is_alpha(sylls[0][j]));
        }
        lemma_initials_letter_run(e, sylls[0]);
        assert(initials(e) =~= e);
        assert(sylls.map_values(|x: Seq<char>| x[0]) =~= seq![sylls[0][0]]);
    } else {
        let d = sylls.drop_last();
        assert forall|i: int| 0 <= i < d.len() implies (#[trigger] d[i]).len() > 0 by {
            assert(d[i] == sylls[i]);
        }
        assert forall|i: int, j: int| 0 <= i < d.len() && 0 <= j < d[i].len() implies is_alpha(#[trigger] d[i][j]) by {
            assert(d[i] == sylls[i]);
            assert(is_alpha(sylls[i][j]));
        }
        lemma_initials_of_spaced(d);
        let x = spaced(d) + seq![' '];
        let b = sylls.last();
        assert forall|j: int| 0 <= j < b.len() implies is_alpha(#[trigger] b[j]) by {
            assert(is_alpha(sylls[sylls.len() - 1][j]));
        }
        assert(x.drop_last() =~= spaced(d));
        assert(!is_alpha(x.last()));
        lemma_initials_letter_run(x, b);
        assert(initials(x) == initials(spaced(d)));
        assert(sylls.map_values(|y: Seq<char>| y[0]) =~= d.map_values(|y: Seq<char>| y[0]).push(b[0]));
    }
}

/// The reading field of a lexicon line.
pub open spec fn line_reading(line: Seq<char>) -> Seq<char> {
    split_seq(trim_seq(line), '\t')[1]
}

proof fn lemma_abbreviation_rows_hold(lines: Seq<Seq<char>>, i: int)
    requires
        0 <= i < lines.len(),
        lexicon_row(lines[i]) is Some,
        abbreviation_key(line_reading(lines[i])).len() >= 2,
    ensures
        abbreviation_rows(lines).contains(
            (lexicon_row(lines[i]).unwrap().0, abbreviation_key(line_reading(lines[i])), lexicon_row(lines[i]).unwrap().2),
        ),
    decreases lines.len(),
{
    let prev = abbreviation_rows(lines.drop_last());
    if i == lines.len() - 1 {
        assert(abbreviation_rows(lines).last() == (lexicon_row(lines[i]).unwrap().0, abbreviation_key(line_reading(lines[i])), lexicon_row(lines[i]).unwrap().2));
    } else {
        lemma_abbreviation_rows_hold(lines.drop_last(), i);
        assert(lines.drop_last()[i] == lines[i]);
        let x = choose|j: int| 0 <= j < prev.len() && prev[j] == (lexicon_row(lines[i]).unwrap().0, abbreviation_key(line_reading(lines[i])), lexicon_row(lines[i]).unwrap().2);
        match abbreviation_row(lines.last()) {
            Some(r) => {
                assert(abbreviation_rows(lines)[x] == prev[x]);
            },
            None => {},
        }
    }
}

/// Abbreviated input finds every base phrase of two or more syllables:
/// with abbreviations on, among the rows a lookup of the lower-cased
/// initials of a base row's reading reads is that row's phrase and weight
/// under those initials, whatever the other layers hold.
pub proof fn lemma_abbreviation_finds_base_phrase(
    text: Seq<char>,
    i: int,
    ext: Seq<(Seq<char>, Seq<char>, u64)>,
    mixed: Seq<(Seq<char>, Seq<char>, u64)>,
    use_mixed: bool,
)
    requires
        0 <= i < lines_seq(text).len(),
        lexicon_row(lines_seq(text)[i]) is Some,
        abbreviation_key(line_reading(lines_seq(text)[i])).len() >= 2,
    ensures
        ({
            let r = lexicon_row(lines_seq(text)[i]).unwrap();
            let a = abbreviation_key(line_reading(lines_seq(text)[i]));
            key_rows(
                lookup_rows(parse_lexicon(text), ext, parse_lexicon_abbreviations(text), true, mixed, use_mixed),
                a,
            ).contains((r.0, a, r.2))
        }),
{
    let lines = lines_seq(text);
    let r = lexicon_row(lines[i]).unwrap();
    let a = abbreviation_key(line_reading(lines[i]));
    let row = (r.0, a, r.2);
    lemma_abbreviation_rows_hold(lines, i);
    let ab = parse_lexicon_abbreviations(text);
    let base_ext = parse_lexicon(text) + ext;
    let m = if use_mixed { mixed } else { Seq::empty() };
    let all = lookup_rows(parse_lexicon(text), ext, ab, true, mixed, use_mixed);
    assert(all == base_ext + ab + m);
    let j = choose|j: int| 0 <= j < ab.len() && ab[j] == row;
    assert(all[base_ext.len() + j] == row);
    all.lemma_filter_contains(has_key(a), base_ext.len() + j);
}

pub open spec fn has_key(key: Seq<char>) -> spec_fn((Seq<char>, Seq<char>, u64)) -> bool {
    |r: (Seq<char>, Seq<char>, u64)| r.1 == key
}

/// The rows filed under `key`.
pub open spec fn key_rows(rows: Seq<(Seq<char>, Seq<char>, u64)>, key: Seq<char>) -> Seq<(Seq<char>, Seq<char>, u64)> {
    rows.filter(has_key(key))
}

pub open spec fn row_phrases(rows: Seq<(Seq<char>, Seq<char>, u64)>) -> Seq<Seq<char>> {
    rows.map_values(|r: (Seq<char>, Seq<char>, u64)| r.0)
}

pub open spec fn row_weights(rows: Seq<(Seq<char>, Seq<char>, u64)>) -> Seq<u64> {
    rows.map_values(|r: (Seq<char>, Seq<char>, u64)| r.2)
}

/// The phrases the lexicon offers for `key`: those of its rows under `key`,
/// the heavier first (equal weights in code-point order of the phrase),
/// each phrase once, where it first comes.
pub open spec fn lexicon_phrases(rows: Seq<(Seq<char>, Seq<char>, u64)>, key: Seq<char>) -> Seq<Seq<char>> {
    let hits = key_rows(rows, key);
    frequency_sorted(row_phrases(hits), row_weights(hits)).remove_duplicates(Seq::empty())
}

fn row_of_line(line: &Vec<char>) -> (r: Option<PhraseEntry>)
    ensures
        match r {
            Some(e) => lexicon_row(line@) == Some(entry_view(e)),
            None => lexicon_row(line@) is None,
        },
{
    let t = trim_vec(line);
    if t.len() == 0 || t[0] == '#' {
        return None;
    }
    let f = split_vec(&t, '\t');
    let ghost fv = f@.map_values(|v: Vec<char>| v@);
    assert(fv.len() == f.len());
    if f.len() != 3 {
        return None;
    }
    assert(fv[0] == f@[0]@ && fv[1] == f@[1]@ && fv[2] == f@[2]@);
    let p = trim_vec(&f[0]);
    let k = compact_key_vec(&f[1]);
    let ws = trim_vec(&f[2]);
    match parse_u64_vec(&ws) {
        Some(w) => {
            if p.len() > 0 && k.len() > 0 {
                Some(PhraseEntry { phrase: string_of(&p), key: string_of(&k), weight: w })
            } else {
                None
            }
        },
        None => None,
    }
}

/// The rows of a lexicon text, in order.
pub fn parse_lexicon_text(text: &str) -> (r: Vec<PhraseEntry>)
    ensures
        entries_view(r@) == parse_lexicon(text@),
{
    let chars = chars_of(text);
    let lines = lines_vec(&chars);
    let ghost ls = lines@.map_values(|v: Vec<char>| v@);
    let mut out: Vec<PhraseEntry> = Vec::new();
    let mut i: usize = 0;
    while i < lines.len()
        invariant
            i <= lines.len(),
            ls == lines@.map_values(|v: Vec<char>| v@),
            entries_view(out@) == lexicon_rows(ls.take(i as int)),
        decreases lines.len() - i,
    {
        assert(ls.take(i + 1).drop_last() =~= ls.take(i as int));
        assert(ls.take(i + 1).last() == lines@[i as int]@);
        let row = row_of_line(&lines[i]);
        match row {
            Some(e) => {
                let ghost before = entries_view(out@);
                out.push(e);
                assert(entries_view(out@) =~= before.push(entry_view(e)));
            },
            None => {},
        }
        i += 1;
    }
    assert(ls.take(lines.len() as int) =~= ls);
    assert(ls == lines_seq(chars@));
    out
}

/// Appends the phrases and weights of the rows of `rows` under `key`.
fn collect_key_rows(rows: &Vec<PhraseEntry>, key: &String, phrases: &mut Vec<String>, weights: &mut Vec<u64>)
    ensures
        strs_view(final(phrases)@) == strs_view(old(phrases)@) + row_phrases(key_rows(entries_view(rows@), key@)),
        final(weights)@ == old(weights)@ + row_weights(key_rows(entries_view(rows@), key@)),
{
    let ghost ev = entries_view(rows@);
    let ghost p0 = strs_view(phrases@);
    let ghost w0 = weights@;
    let mut i: usize = 0;
    while i < rows.len()
        invariant
            i <= rows.len(),
            ev == entries_view(rows@),
            strs_view(phrases@) == p0 + row_phrases(key_rows(ev.take(i as int), key@)),
            weights@ == w0 + row_weights(key_rows(ev.take(i as int), key@)),
        decreases rows.len() - i,
    {
        proof {
            assert(ev.take(i + 1) =~= ev.take(i as int).push(ev[i as int]));
            ev.take(i as int).lemma_filter_push(ev[i as int], has_key(key@));
        }
        let e = &rows[i];
        assert(ev[i as int] == entry_view(*e));
        if e.key == *key {
            let ghost before = key_rows(ev.take(i as int), key@);
            let ghost bp = strs_view(phrases@);
            phrases.push(e.phrase.clone());
            weights.push(e.weight);
            assert(strs_view(phrases@) =~= bp.push(e.phrase@));
            assert(row_phrases(before.push(ev[i as int])) =~= row_phrases(before).push(e.phrase@));
            assert(row_weights(before.push(ev[i as int])) =~= row_weights(before).push(e.weight));
        }
        i += 1;
    }
    assert(ev.take(rows.len() as int) =~= ev);
}

proof fn lemma_key_rows_add(a: Seq<(Seq<char>, Seq<char>, u64)>, b: Seq<(Seq<char>, Seq<char>, u64)>, key: Seq<char>)
    ensures
        row_phrases(key_rows(a + b, key)) == row_phrases(key_rows(a, key)) + row_phrases(key_rows(b, key)),
        row_weights(key_rows(a + b, key)) == row_weights(key_rows(a, key)) + row_weights(key_rows(b, key)),
{
    Seq::filter_distributes_over_add(a, b, has_key(key));
    assert(row_phrases(key_rows(a, key) + key_rows(b, key)) =~= row_phrases(key_rows(a, key)) + row_phrases(
        key_rows(b, key),
    ));
    assert(row_weights(key_rows(a, key) + key_rows(b, key)) =~= row_weights(key_rows(a, key)) + row_weights(
        key_rows(b, key),
    ));
}

/// The rows a lookup reads: the base rows, the extension rows, with
/// abbreviations on the base rows filed under their abbreviations, and with
/// mixed pinyin on the base rows filed under their mixed keys.
pub open spec fn lookup_rows(
    base: Seq<(Seq<char>, Seq<char>, u64)>,
    ext: Seq<(Seq<char>, Seq<char>, u64)>,
    abbrev: Seq<(Seq<char>, Seq<char>, u64)>,
    use_abbrev: bool,
    mixed: Seq<(Seq<char>, Seq<char>, u64)>,
    use_mixed: bool,
) -> Seq<(Seq<char>, Seq<char>, u64)> {
    base + ext + (if use_abbrev {
        abbrev
    } else {
        Seq::empty()
    }) + (if use_mixed {
        mixed
    } else {
        Seq::empty()
    })
}

/// The phrases the rows of `base`, `ext`, (when `use_abbrev`) `abbrev` and
/// (when `use_mixed`) `mixed` offer for `key`.
pub fn phrases_for_key(
    base: &Vec<PhraseEntry>,
    ext: &Vec<PhraseEntry>,
    abbrev: &Vec<PhraseEntry>,
    use_abbrev: bool,
    mixed: &Vec<PhraseEntry>,
    use_mixed: bool,
    key: &String,
) -> (r: Vec<String>)
    ensures
        strs_view(r@) == lexicon_phrases(
            lookup_rows(
                entries_view(base@),
                entries_view(ext@),
                entries_view(abbrev@),
                use_abbrev,
                entries_view(mixed@),
                use_mixed,
            ),
            key@,
        ),
{
    let mut phrases: Vec<String> = Vec::new();
    let mut weights: Vec<u64> = Vec::new();
    collect_key_rows(base, key, &mut phrases, &mut weights);
    collect_key_rows(ext, key, &mut phrases, &mut weights);
    let ghost a = entries_view(base@);
    let ghost b = entries_view(ext@);
    let ghost c = if use_abbrev { entries_view(abbrev@) } else { Seq::empty() };
    let ghost d = if use_mixed { entries_view(mixed@) } else { Seq::empty() };
    if use_abbrev {
        collect_key_rows(abbrev, key, &mut phrases, &mut weights);
    }
    if use_mixed {
        collect_key_rows(mixed, key, &mut phrases, &mut weights);
    }
    proof {
        lemma_key_rows_add(a, b, key@);
        lemma_key_rows_add(a + b, c, key@);
        lemma_key_rows_add(a + b + c, d, key@);
        if !use_abbrev {
            assert(key_rows(c, key@) =~= Seq::<(Seq<char>, Seq<char>, u64)>::empty());
        }
        if !use_mixed {
            assert(key_rows(d, key@) =~= Seq::<(Seq<char>, Seq<char>, u64)>::empty());
        }
        assert(strs_view(Seq::<String>::empty()) =~= Seq::<Seq<char>>::empty());
    }
    let ghost all = a + b + c + d;
    assert(strs_view(phrases@) =~= row_phrases(key_rows(all, key@)));
    assert(weights@ =~= row_weights(key_rows(all, key@)));
    assert(phrases@.len() == strs_view(phrases@).len());
    assert(row_phrases(key_rows(all, key@)).len() == row_weights(key_rows(all, key@)).len());
    let mut sorted = sorted_by_frequency(&phrases, &weights);
    dedup_preserved_phrase_order(&mut sorted);
    sorted
}

} // verus!
