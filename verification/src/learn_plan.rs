//! What one commit teaches the user dictionary: the split of its reading into
//! syllables, the sub-phrases of a new long phrase, and the extra readings
//! (initials, mixed full/initial keys) it is learned under.
use vstd::prelude::*;
use vstd::hash_map::StringHashMap;
use crate::dict::strings_view;
use crate::text::{is_alpha, is_alpha_char, is_ws, slice_vec, string_of, chars_of};
use crate::learning::{mixed_keys_spec, mixed_pinyin_keys_from_syllables};
use crate::user_lexicon::{ops_view, LearnOp};

verus! {

/// The longest prefix of `key`, no longer than `n`, that is a reading of the
/// index; zero when there is none.
pub open spec fn prefix_reading_len(dict: Map<Seq<char>, Vec<char>>, key: Seq<char>, n: int) -> int
    decreases n,
{
    if n <= 0 {
        0
    } else if dict.contains_key(key.take(n)) {
        n
    } else {
        prefix_reading_len(dict, key, n - 1)
    }
}

pub proof fn lemma_prefix_reading_len_bound(dict: Map<Seq<char>, Vec<char>>, key: Seq<char>, n: int)
    ensures
        0 <= prefix_reading_len(dict, key, n),
        n >= 0 ==> prefix_reading_len(dict, key, n) <= n,
        prefix_reading_len(dict, key, n) > 0 ==> dict.contains_key(
            key.take(prefix_reading_len(dict, key, n)),
        ),
    decreases n,
{
    if n > 0 {
        lemma_prefix_reading_len_bound(dict, key, n - 1);
    }
}

/// `s` split into readings of `dict`, each time taking the longest reading
/// that starts the rest; `None` when some rest starts with no reading.
pub open spec fn greedy_split(dict: Map<Seq<char>, Vec<char>>, s: Seq<char>) -> Option<Seq<Seq<char>>>
    decreases s.len(),
{
    if s.len() == 0 {
        Some(Seq::empty())
    } else {
        let p = prefix_reading_len(dict, s, s.len() as int);
        if p <= 0 || p > s.len() {
            None
        } else {
            match greedy_split(dict, s.skip(p)) {
                Some(rest) => Some(seq![s.take(p)] + rest),
                None => None,
            }
        }
    }
}

/// The syllables of a full-pinyin key: its split into at least two readings.
pub open spec fn full_syllables(dict: Map<Seq<char>, Vec<char>>, key: Seq<char>) -> Option<Seq<Seq<char>>> {
    match greedy_split(dict, key) {
        Some(s) => if s.len() >= 2 {
            Some(s)
        } else {
            None
        },
        None => None,
    }
}

/// The length of the longest prefix of `s` that is a reading of `dict`.
pub fn longest_reading_prefix(dict: &StringHashMap<Vec<char>>, s: &Vec<char>) -> (r: usize)
    ensures
        r as int == prefix_reading_len(dict@, s@, s@.len() as int),
        r <= s.len(),
{
    let mut n = s.len();
    while n > 0
        invariant
            n <= s.len(),
            prefix_reading_len(dict@, s@, s@.len() as int) == prefix_reading_len(dict@, s@, n as int),
        decreases n,
    {
        let p = slice_vec(s, 0, n);
        let ps = string_of(&p);
        assert(p@ =~= s@.take(n as int));
        if dict.contains_key(ps.as_str()) {
            return n;
        }
        n -= 1;
    }
    0
}

/// The greedy split of `s` into readings of `dict`.
pub fn split_readings(dict: &StringHashMap<Vec<char>>, s: &Vec<char>) -> (r: Option<Vec<String>>)
    ensures
        match r {
            Some(v) => greedy_split(dict@, s@) == Some(strings_view(v@)),
            None => greedy_split(dict@, s@) is None,
        },
{
    let mut out: Vec<String> = Vec::new();
    let mut pos: usize = 0;
    assert(s@.skip(0) =~= s@);
    while pos < s.len()
        invariant
            pos <= s.len(),
            greedy_split(dict@, s@) == match greedy_split(dict@, s@.skip(pos as int)) {
                Some(rest) => Some(strings_view(out@) + rest),
                None => None::<Seq<Seq<char>>>,
            },
        decreases s.len() - pos,
    {
        let rest = slice_vec(s, pos, s.len());
        assert(rest@ =~= s@.skip(pos as int));
        let p = longest_reading_prefix(dict, &rest);
        proof {
            lemma_prefix_reading_len_bound(dict@, rest@, rest@.len() as int);
        }
        if p == 0 {
            return None;
        }
        let piece = slice_vec(&rest, 0, p);
        assert(piece@ =~= rest@.take(p as int));
        let ghost before = strings_view(out@);
        out.push(string_of(&piece));
        assert(strings_view(out@) =~= before.push(piece@));
        assert(rest@.skip(p as int) =~= s@.skip(pos + p));
        proof {
            match greedy_split(dict@, s@.skip(pos + p)) {
                Some(tail) => {
                    assert(before + (seq![piece@] + tail) =~= before.push(piece@) + tail);
                },
                None => {},
            }
        }
        pos += p;
    }
    assert(s@.skip(pos as int) =~= Seq::<char>::empty());
    assert(strings_view(out@) + Seq::<Seq<char>>::empty() =~= strings_view(out@));
    Some(out)
}

/// The syllables of `key` when it is full pinyin of at least two syllables.
pub fn full_pinyin_syllables(dict: &StringHashMap<Vec<char>>, key: &Vec<char>) -> (r: Option<Vec<String>>)
    ensures
        match r {
            Some(v) => full_syllables(dict@, key@) == Some(strings_view(v@)),
            None => full_syllables(dict@, key@) is None,
        },
{
    match split_readings(dict, key) {
        Some(v) => if v.len() >= 2 {
            Some(v)
        } else {
            None
        },
        None => None,
    }
}

/// The syllables of `ss` written one after another.
pub open spec fn concat_all(ss: Seq<Seq<char>>) -> Seq<char>
    decreases ss.len(),
{
    if ss.len() == 0 {
        Seq::empty()
    } else {
        concat_all(ss.drop_last()) + ss.last()
    }
}

/// `v[lo..hi]` written one after another.
pub fn join_range(v: &Vec<String>, lo: usize, hi: usize) -> (r: Vec<char>)
    requires
        lo <= hi <= v.len(),
    ensures
        r@ == concat_all(strings_view(v@).subrange(lo as int, hi as int)),
{
    let ghost sv = strings_view(v@);
    let mut out: Vec<char> = Vec::new();
    let mut i = lo;
    while i < hi
        invariant
            lo <= i <= hi <= v.len(),
            sv == strings_view(v@),
            out@ == concat_all(sv.subrange(lo as int, i as int)),
        decreases hi - i,
    {
        assert(sv.subrange(lo as int, i + 1).drop_last() =~= sv.subrange(lo as int, i as int));
        let part = chars_of(v[i].as_str());
        assert(part@ == sv[i as int]);
        let mut j: usize = 0;
        let ghost base = out@;
        while j < part.len()
            invariant
                j <= part.len(),
                out@ == base + part@.take(j as int),
            decreases part.len() - j,
        {
            out.push(part[j]);
            assert(part@.take(j + 1) =~= part@.take(j as int).push(part@[j as int]));
            j += 1;
        }
        assert(part@.take(part.len() as int) =~= part@);
        i += 1;
    }
    out
}

/// The phrase lengths, in characters, between which a new phrase is split
/// into learned sub-phrases.
pub const AUTO_NOVEL_MIN_CHARS: usize = 4;
pub const AUTO_NOVEL_MAX_CHARS: usize = 8;

/// The character spans of a phrase of `n` characters that are learned as
/// sub-phrases: its first and last two characters for four or five, its
/// first and last three from five, and all but its last two and its last
/// four from six.
pub open spec fn novel_spans(n: int) -> Seq<(int, int)> {
    let a = if 4 <= n <= 5 {
        seq![(0int, 2int), (n - 2, n)]
    } else {
        Seq::empty()
    };
    let b = if n >= 5 {
        seq![(0int, 3int), (n - 3, n)]
    } else {
        Seq::empty()
    };
    let c = if n >= 6 {
        seq![(0int, n - 2), (n - 4, n)]
    } else {
        Seq::empty()
    };
    a + b + c
}

/// The sub-phrases of `phrase` over `spans`, each with the reading made of
/// its syllables: a span is skipped when it is empty or out of range, when
/// its text is the whole phrase, is not learnable or is blocked, when its
/// reading is empty, and when the pair is already listed.
pub open spec fn novel_parts_from(
    spans: Seq<(int, int)>,
    phrase: Seq<char>,
    syls: Seq<Seq<char>>,
    blocked: Seq<Seq<char>>,
) -> Seq<(Seq<char>, Seq<char>)>
    decreases spans.len(),
{
    if spans.len() == 0 {
        Seq::empty()
    } else {
        let prev = novel_parts_from(spans.drop_last(), phrase, syls, blocked);
        let st = spans.last().0;
        let en = spans.last().1;
        if st < 0 || st >= en || en > phrase.len() || en > syls.len() {
            prev
        } else {
            let sub = phrase.subrange(st, en);
            let sk = concat_all(syls.subrange(st, en));
            if sub == phrase || !crate::learning::learnable_phrase(sub) || blocked.contains(sub) || sk.len()
                == 0 || prev.contains((sk, sub)) {
                prev
            } else {
                prev.push((sk, sub))
            }
        }
    }
}

pub open spec fn has_separator(reading: Seq<char>) -> bool {
    exists|i: int| 0 <= i < reading.len() && (is_ws(#[trigger] reading[i]) || reading[i] == '\'' || reading[i] == '-')
}

/// The sub-phrases learned with a new phrase of four to eight characters
/// whose reading, typed without separators, splits into exactly one
/// syllable per character; `None` when the phrase does not qualify.
pub open spec fn auto_novel(
    dict: Map<Seq<char>, Vec<char>>,
    reading: Seq<char>,
    key: Seq<char>,
    phrase: Seq<char>,
    blocked: Seq<Seq<char>>,
) -> Option<Seq<(Seq<char>, Seq<char>)>> {
    if has_separator(reading) || !(AUTO_NOVEL_MIN_CHARS <= phrase.len() <= AUTO_NOVEL_MAX_CHARS) {
        None
    } else {
        match greedy_split(dict, key) {
            Some(syls) => if syls.len() == phrase.len() {
                Some(novel_parts_from(novel_spans(phrase.len() as int), phrase, syls, blocked))
            } else {
                None
            },
            None => None,
        }
    }
}

pub open spec fn pairs_view(v: Seq<(String, String)>) -> Seq<(Seq<char>, Seq<char>)> {
    v.map_values(|p: (String, String)| (p.0@, p.1@))
}

pub open spec fn spans_view(v: Seq<(usize, usize)>) -> Seq<(int, int)> {
    v.map_values(|p: (usize, usize)| (p.0 as int, p.1 as int))
}

fn novel_spans_vec(n: usize) -> (r: Vec<(usize, usize)>)
    ensures
        spans_view(r@) == novel_spans(n as int),
{
    let mut out: Vec<(usize, usize)> = Vec::new();
    if 4 <= n && n <= 5 {
        out.push((0, 2));
        out.push((n - 2, n));
    }
    if n >= 5 {
        out.push((0, 3));
        out.push((n - 3, n));
    }
    if n >= 6 {
        out.push((0, n - 2));
        out.push((n - 4, n));
    }
    assert(spans_view(out@) =~= novel_spans(n as int));
    out
}

fn contains_pair(v: &Vec<(String, String)>, a: &String, b: &String) -> (r: bool)
    ensures
        r == pairs_view(v@).contains((a@, b@)),
{
    let mut i: usize = 0;
    while i < v.len()
        invariant
            i <= v.len(),
            forall|k: int| 0 <= k < i ==> pairs_view(v@)[k] != (a@, b@),
        decreases v.len() - i,
    {
        if v[i].0 == *a && v[i].1 == *b {
            assert(pairs_view(v@)[i as int] == (a@, b@));
            return true;
        }
        i += 1;
    }
    false
}

fn is_blocked_in(blocked: &Vec<String>, s: &String) -> (r: bool)
    ensures
        r == strings_view(blocked@).contains(s@),
{
    let mut i: usize = 0;
    while i < blocked.len()
        invariant
            i <= blocked.len(),
            forall|k: int| 0 <= k < i ==> strings_view(blocked@)[k] != s@,
        decreases blocked.len() - i,
    {
        if blocked[i] == *s {
            assert(strings_view(blocked@)[i as int] == s@);
            return true;
        }
        i += 1;
    }
    false
}

fn has_separator_vec(reading: &Vec<char>) -> (r: bool)
    ensures
        r == has_separator(reading@),
{
    let mut i: usize = 0;
    while i < reading.len()
        invariant
            i <= reading.len(),
            forall|k: int| 0 <= k < i ==> !(is_ws(#[trigger] reading@[k]) || reading@[k] == '\'' || reading@[k] == '-'),
        decreases reading.len() - i,
    {
        let c = reading[i];
        if crate::text::is_ws_char(c) || c == '\'' || c == '-' {
            return true;
        }
        i += 1;
    }
    false
}

/// The sub-phrases learned with a new long phrase.
pub fn auto_novel_phrase_parts(
    dict: &StringHashMap<Vec<char>>,
    reading: &Vec<char>,
    key: &Vec<char>,
    phrase: &Vec<char>,
    blocked: &Vec<String>,
) -> (r: Option<Vec<(String, String)>>)
    ensures
        match r {
            Some(v) => auto_novel(dict@, reading@, key@, phrase@, strings_view(blocked@)) == Some(
                pairs_view(v@),
            ),
            None => auto_novel(dict@, reading@, key@, phrase@, strings_view(blocked@)) is None,
        },
{
    if has_separator_vec(reading) {
        return None;
    }
    let n = phrase.len();
    if n < AUTO_NOVEL_MIN_CHARS || n > AUTO_NOVEL_MAX_CHARS {
        return None;
    }
    let syls = match split_readings(dict, key) {
        Some(v) => v,
        None => {
            return None;
        },
    };
    if syls.len() != n {
        return None;
    }
    let ghost sv = strings_view(syls@);
    let ghost bl = strings_view(blocked@);
    let spans = novel_spans_vec(n);
    let ghost spv = spans_view(spans@);
    let whole = string_of(phrase);
    let mut out: Vec<(String, String)> = Vec::new();
    let mut i: usize = 0;
    while i < spans.len()
        invariant
            i <= spans.len(),
            n == phrase.len(),
            syls.len() == n,
            sv == strings_view(syls@),
            bl == strings_view(blocked@),
            spv == spans_view(spans@),
            whole@ == phrase@,
            pairs_view(out@) == novel_parts_from(spv.take(i as int), phrase@, sv, bl),
        decreases spans.len() - i,
    {
        let ghost prev = pairs_view(out@);
        assert(spv.take(i + 1).drop_last() =~= spv.take(i as int));
        let (st, en) = spans[i];
        assert(spv.take(i + 1).last() == (st as int, en as int));
        if st < en && en <= n {
            let sub_chars = slice_vec(phrase, st, en);
            assert(sub_chars@ =~= phrase@.subrange(st as int, en as int));
            let sub = string_of(&sub_chars);
            let sub_key_chars = join_range(&syls, st, en);
            let sub_key = string_of(&sub_key_chars);
            if sub != whole && crate::learning::learnable_chars(&sub_chars) && !is_blocked_in(blocked, &sub)
                && sub_key_chars.len() > 0 && !contains_pair(&out, &sub_key, &sub) {
                out.push((sub_key, sub));
                assert(pairs_view(out@) =~= prev.push((sub_key_chars@, sub_chars@)));
            }
        }
        i += 1;
    }
    assert(spv.take(spans.len() as int) =~= spv);
    Some(out)
}

/// Keys that run a direct-input command rather than a pinyin lookup: the
/// `vv` command prefix, and the date, time and weekday commands.
pub open spec fn is_shortcut_key(key: Seq<char>) -> bool {
    ||| crate::text::starts_with(key, seq!['v', 'v'])
    ||| key == seq!['r', 'q']
    ||| key == seq!['s', 'j']
    ||| key == seq!['x', 'q']
}

pub fn is_direct_input_shortcut_key(key: &Vec<char>) -> (r: bool)
    ensures
        r == is_shortcut_key(key@),
{
    let vv: Vec<char> = vec!['v', 'v'];
    let rq: Vec<char> = vec!['r', 'q'];
    let sj: Vec<char> = vec!['s', 'j'];
    let xq: Vec<char> = vec!['x', 'q'];
    crate::text::starts_with_vec(key, &vv) || crate::text::eq_vec(key, &rq) || crate::text::eq_vec(
        key,
        &sj,
    ) || crate::text::eq_vec(key, &xq)
}

/// The initials of `syls`, lower-cased; syllables that do not start with a
/// letter contribute nothing.
pub open spec fn initials_of(syls: Seq<Seq<char>>) -> Seq<char>
    decreases syls.len(),
{
    if syls.len() == 0 {
        Seq::empty()
    } else {
        let rest = initials_of(syls.drop_last());
        let s = syls.last();
        if s.len() > 0 && is_alpha(s[0]) {
            rest.push(crate::text::lower_char(s[0]))
        } else {
            rest
        }
    }
}

pub fn initials_abbrev(syllables: &Vec<String>) -> (r: String)
    ensures
        r@ == initials_of(strings_view(syllables@)),
{
    let ghost sv = strings_view(syllables@);
    let mut out: Vec<char> = Vec::new();
    let mut i: usize = 0;
    while i < syllables.len()
        invariant
            i <= syllables.len(),
            sv == strings_view(syllables@),
            out@ == initials_of(sv.take(i as int)),
        decreases syllables.len() - i,
    {
        assert(sv.take(i + 1).drop_last() =~= sv.take(i as int));
        let syl = chars_of(syllables[i].as_str());
        assert(sv[i as int] == syl@);
        if syl.len() > 0 && is_alpha_char(syl[0]) {
            out.push(crate::text::lower_of(syl[0]));
        }
        i += 1;
    }
    assert(sv.take(syllables.len() as int) =~= sv);
    string_of(&out)
}

/// A mixed key is learned unless it is the typed key, the initials, or a
/// command.
pub open spec fn mixed_keep(key: Seq<char>, ab: Seq<char>) -> spec_fn(Seq<char>) -> bool {
    |m: Seq<char>| m != key && m != ab && !is_shortcut_key(m)
}

pub open spec fn mixed_op(phrase: Seq<char>, md: u64) -> spec_fn(Seq<char>) -> LearnOp {
    |m: Seq<char>| (m, phrase, md)
}

/// The weight of a mixed full/initial key learned from a commit.
pub const USER_MIXED_INPUT_MIN_FREQ: u64 = 2;

/// The extra learning steps of a commit of `phrase` under `key`, after the
/// phrase itself: its sub-phrases with weight one; then, for a full-pinyin
/// reading, the initials of its syllables with weight one (twice for two to
/// four syllables) and each of its mixed full/initial keys with the mixed
/// weight; readings equal to `key`, to the initials, or that are commands
/// are left out.
pub open spec fn extra_learn_ops(
    key: Seq<char>,
    phrase: Seq<char>,
    weak: bool,
    novel: Option<Seq<(Seq<char>, Seq<char>)>>,
    syls: Option<Seq<Seq<char>>>,
) -> Seq<LearnOp> {
    let novel_ops = match novel {
        Some(parts) => parts.map_values(|p: (Seq<char>, Seq<char>)| (p.0, p.1, 1u64)),
        None => Seq::empty(),
    };
    let syl_ops = match syls {
        Some(s) => if s.len() >= 2 {
            let ab = initials_of(s);
            let ab_ops = if ab.len() > 0 && ab != key && !is_shortcut_key(ab) {
                if 2 <= s.len() <= 4 {
                    seq![(ab, phrase, 1u64), (ab, phrase, 1u64)]
                } else {
                    seq![(ab, phrase, 1u64)]
                }
            } else {
                Seq::empty()
            };
            let md: u64 = if weak { 1 } else { USER_MIXED_INPUT_MIN_FREQ };
            ab_ops + mixed_keys_spec(s, 64).filter(mixed_keep(key, ab)).map_values(mixed_op(phrase, md))
        } else {
            Seq::empty()
        },
        None => Seq::empty(),
    };
    novel_ops + syl_ops
}

pub fn extra_learn_ops_vec(
    key: &Vec<char>,
    phrase: &String,
    weak: bool,
    novel: &Option<Vec<(String, String)>>,
    syls: &Option<Vec<String>>,
) -> (r: Vec<(String, String, u64)>)
    ensures
        ops_view(r@) == extra_learn_ops(
            key@,
            phrase@,
            weak,
            match novel {
                Some(v) => Some(pairs_view(v@)),
                None => None,
            },
            match syls {
                Some(v) => Some(strings_view(v@)),
                None => None,
            },
        ),
{
    let mut out: Vec<(String, String, u64)> = Vec::new();
    match novel {
        Some(parts) => {
            let ghost pv = pairs_view(parts@);
            let mut i: usize = 0;
            while i < parts.len()
                invariant
                    i <= parts.len(),
                    pv == pairs_view(parts@),
                    ops_view(out@) =~= pv.take(i as int).map_values(
                        |p: (Seq<char>, Seq<char>)| (p.0, p.1, 1u64),
                    ),
                decreases parts.len() - i,
            {
                let ghost before = ops_view(out@);
                out.push((parts[i].0.clone(), parts[i].1.clone(), 1));
                assert(ops_view(out@) =~= before.push((pv[i as int].0, pv[i as int].1, 1u64)));
                assert(pv.take(i + 1) =~= pv.take(i as int).push(pv[i as int]));
                i += 1;
            }
            assert(pv.take(parts.len() as int) =~= pv);
        },
        None => {},
    }
    let ghost novel_part = ops_view(out@);
    match syls {
        Some(s) => {
            if s.len() >= 2 {
                let ghost sv = strings_view(s@);
                let ab = initials_abbrev(s);
                let ab_chars = chars_of(ab.as_str());
                let key_s = string_of(key);
                if ab_chars.len() > 0 && ab != key_s && !is_direct_input_shortcut_key(&ab_chars) {
                    out.push((ab.clone(), phrase.clone(), 1));
                    if 2 <= s.len() && s.len() <= 4 {
                        out.push((ab.clone(), phrase.clone(), 1));
                    }
                }
                let ghost ab_part = ops_view(out@).skip(novel_part.len() as int);
                let md: u64 = if weak {
                    1
                } else {
                    USER_MIXED_INPUT_MIN_FREQ
                };
                let mixed = mixed_pinyin_keys_from_syllables(s, 64);
                let ghost mv = strings_view(mixed@);
                let ghost f = mixed_keep(key@, ab@);
                let ghost g = mixed_op(phrase@, md);
                let ghost base = ops_view(out@);
                let mut j: usize = 0;
                while j < mixed.len()
                    invariant
                        j <= mixed.len(),
                        mv == strings_view(mixed@),
                        f == mixed_keep(key@, ab@),
                        g == mixed_op(phrase@, md),
                        key_s@ == key@,
                        ops_view(out@) =~= base + mv.take(j as int).filter(f).map_values(g),
                    decreases mixed.len() - j,
                {
                    proof {
                        assert(mv.take(j + 1) =~= mv.take(j as int).push(mv[j as int]));
                        mv.take(j as int).lemma_filter_push(mv[j as int], f);
                    }
                    let m = &mixed[j];
                    let m_chars = chars_of(m.as_str());
                    assert(m_chars@ == mv[j as int]);
                    if *m != key_s && *m != ab && !is_direct_input_shortcut_key(&m_chars) {
                        let ghost before = ops_view(out@);
                        out.push((m.clone(), phrase.clone(), md));
                        assert(ops_view(out@) =~= before.push(g(mv[j as int])));
                        assert(mv.take(j + 1).filter(f).map_values(g) =~= mv.take(j as int).filter(f).map_values(g).push(g(mv[j as int])));
                    } else {
                        assert(!f(mv[j as int]));
                    }
                    j += 1;
                }
                assert(mv.take(mixed.len() as int) =~= mv);
                assert(ops_view(out@) =~= novel_part + (ab_part + mv.filter(f).map_values(g)));
            } else {
                assert(ops_view(out@) =~= novel_part + Seq::empty());
            }
        },
        None => {
            assert(ops_view(out@) =~= novel_part + Seq::empty());
        },
    }
    out
}

/// Feedback weights of one selection: the selected phrase gains the base
/// weight, one per position it was listed at (up to two pages) and per page
/// turned (up to eight), and one more for a four-character phrase; every
/// candidate the user passed over loses one in the weak list, so that
/// repeated misses cool it gradually instead of punishing it at once.
pub const SELECTION_SELECTED_BASE_DELTA: i64 = 2;
pub const SELECTION_PAGE_SELECTED_DELTA: i64 = 1;
pub const FOUR_CHAR_SELECTION_EXTRA_DELTA: i64 = 1;
pub const WEAK_UNSELECTED_DELTA: i64 = -1;
/// Candidates per page, for the page arithmetic of selection feedback.
pub const FEEDBACK_PAGE_SIZE: usize = 9;

pub open spec fn min_int(a: int, b: int) -> int {
    if a < b {
        a
    } else {
        b
    }
}

/// The weight the selected phrase gains.
pub open spec fn selected_delta(chars: int, selected_index: int, page: int) -> i64 {
    (SELECTION_SELECTED_BASE_DELTA + min_int(selected_index, (FEEDBACK_PAGE_SIZE * 2) as int) + min_int(
        page,
        8,
    ) * SELECTION_PAGE_SELECTED_DELTA + if chars == 4 {
        FOUR_CHAR_SELECTION_EXTRA_DELTA
    } else {
        0
    }) as i64
}

/// The weak penalties of the candidates passed over, and the candidates
/// seen: each candidate is taken without surrounding whitespace, and empty
/// ones, the selected phrase itself and repeats are passed over; candidates
/// that are not learnable are seen but not penalised.
pub open spec fn skipped_scan(skipped: Seq<Seq<char>>, phrase: Seq<char>) -> (Seq<(Seq<char>, i64)>, Seq<Seq<char>>)
    decreases skipped.len(),
{
    if skipped.len() == 0 {
        (Seq::empty(), Seq::empty())
    } else {
        let prev = skipped_scan(skipped.drop_last(), phrase);
        let s = crate::text::trim_seq(skipped.last());
        if s.len() == 0 || s == phrase || prev.1.contains(s) {
            prev
        } else if !crate::learning::learnable_phrase(s) {
            (prev.0, prev.1.push(s))
        } else {
            (prev.0.push((s, WEAK_UNSELECTED_DELTA)), prev.1.push(s))
        }
    }
}

/// The weak penalties of a selection are each `WEAK_UNSELECTED_DELTA`, for
/// distinct candidates other than the selected phrase, all among those seen.
pub proof fn lemma_skipped_scan_shape(skipped: Seq<Seq<char>>, phrase: Seq<char>)
    ensures
        ({
            let r = skipped_scan(skipped, phrase);
            &&& forall|i: int| 0 <= i < r.0.len() ==> (#[trigger] r.0[i]).1 == WEAK_UNSELECTED_DELTA
                && r.0[i].0 != phrase && r.1.contains(r.0[i].0)
            &&& forall|a: int, b: int| 0 <= a < b < r.0.len() ==> (#[trigger] r.0[a]).0 != (#[trigger] r.0[b]).0
        }),
    decreases skipped.len(),
{
    if skipped.len() > 0 {
        lemma_skipped_scan_shape(skipped.drop_last(), phrase);
        let prev = skipped_scan(skipped.drop_last(), phrase);
        let s = crate::text::trim_seq(skipped.last());
        let r = skipped_scan(skipped, phrase);
        if !(s.len() == 0 || s == phrase || prev.1.contains(s)) {
            assert forall|i: int| 0 <= i < r.0.len() implies (#[trigger] r.0[i]).1 == WEAK_UNSELECTED_DELTA
                && r.0[i].0 != phrase && r.1.contains(r.0[i].0) by {
                if i < prev.0.len() {
                    assert(r.0[i] == prev.0[i]);
                    let k = choose|k: int| 0 <= k < prev.1.len() && prev.1[k] == prev.0[i].0;
                    assert(r.1[k] == prev.1[k]);
                } else {
                    assert(r.1[prev.1.len() as int] == s);
                }
            }
            assert forall|a: int, b: int| 0 <= a < b < r.0.len() implies (#[trigger] r.0[a]).0 != (#[trigger] r.0[b]).0 by {
                if b < prev.0.len() {
                    assert(r.0[a] == prev.0[a] && r.0[b] == prev.0[b]);
                } else if crate::learning::learnable_phrase(s) {
                    assert(r.0[a] == prev.0[a]);
                    assert(prev.1.contains(prev.0[a].0));
                }
            }
        }
    }
}

/// The feedback of a selection: the weight of the selected phrase (when it
/// was not the first candidate of the first page), and the weak penalties
/// of the candidates passed over.
pub open spec fn selection_feedback(
    phrase: Seq<char>,
    selected_index: int,
    page: int,
    skipped: Seq<Seq<char>>,
) -> (Seq<(Seq<char>, i64)>, Seq<(Seq<char>, i64)>) {
    let head = if selected_index != 0 || page != 0 {
        seq![(phrase, selected_delta(phrase.len() as int, selected_index, page))]
    } else {
        Seq::empty()
    };
    (head, skipped_scan(skipped, phrase).0)
}

fn contains_str(v: &Vec<String>, s: &String) -> (r: bool)
    ensures
        r == strings_view(v@).contains(s@),
{
    let mut i: usize = 0;
    while i < v.len()
        invariant
            i <= v.len(),
            forall|k: int| 0 <= k < i ==> strings_view(v@)[k] != s@,
        decreases v.len() - i,
    {
        if v[i] == *s {
            assert(strings_view(v@)[i as int] == s@);
            return true;
        }
        i += 1;
    }
    false
}

/// The feedback weights of a selection of `phrase` at `selected_index` on
/// `page`, after passing over `skipped`.
pub fn selection_feedback_vec(
    phrase: &Vec<char>,
    selected_index: usize,
    page: usize,
    skipped: &[String],
) -> (r: (Vec<(String, i64)>, Vec<(String, i64)>))
    ensures
        (crate::user_lexicon::deltas_view(r.0@), crate::user_lexicon::deltas_view(r.1@))
            == selection_feedback(phrase@, selected_index as int, page as int, strings_view(skipped@)),
{
    let ghost sk = strings_view(skipped@);
    let mut adj: Vec<(String, i64)> = Vec::new();
    if selected_index != 0 || page != 0 {
        let sel: i64 = if selected_index < FEEDBACK_PAGE_SIZE * 2 {
            selected_index as i64
        } else {
            (FEEDBACK_PAGE_SIZE * 2) as i64
        };
        let pg: i64 = if page < 8 {
            page as i64
        } else {
            8
        };
        let four: i64 = if phrase.len() == 4 {
            FOUR_CHAR_SELECTION_EXTRA_DELTA
        } else {
            0
        };
        adj.push((string_of(phrase), SELECTION_SELECTED_BASE_DELTA + sel + pg * SELECTION_PAGE_SELECTED_DELTA + four));
    }
    let mut weak: Vec<(String, i64)> = Vec::new();
    let mut seen: Vec<String> = Vec::new();
    let whole = string_of(phrase);
    let mut rank: usize = 0;
    while rank < skipped.len()
        invariant
            rank <= skipped.len(),
            sk == strings_view(skipped@),
            whole@ == phrase@,
            crate::user_lexicon::deltas_view(weak@) == skipped_scan(sk.take(rank as int), phrase@).0,
            strings_view(seen@) == skipped_scan(sk.take(rank as int), phrase@).1,
        decreases skipped.len() - rank,
    {
        assert(sk.take(rank + 1).drop_last() =~= sk.take(rank as int));
        let st = crate::text::trim_vec(&chars_of(skipped[rank].as_str()));
        let s = string_of(&st);
        if st.len() == 0 || s == whole || contains_str(&seen, &s) {
        } else {
            let ghost seen0 = strings_view(seen@);
            seen.push(s.clone());
            assert(strings_view(seen@) =~= seen0.push(st@));
            if crate::learning::learnable_chars(&st) {
                let ghost w0 = crate::user_lexicon::deltas_view(weak@);
                weak.push((s, WEAK_UNSELECTED_DELTA));
                assert(crate::user_lexicon::deltas_view(weak@) =~= w0.push((st@, WEAK_UNSELECTED_DELTA)));
            }
        }
        rank += 1;
    }
    assert(sk.take(skipped.len() as int) =~= sk);
    proof {
        let h = crate::user_lexicon::deltas_view(adj@);
        if selected_index != 0 || page != 0 {
            assert(h =~= seq![(phrase@, selected_delta(phrase@.len() as int, selected_index as int, page as int))]);
        } else {
            assert(h =~= Seq::<(Seq<char>, i64)>::empty());
        }
    }
    (adj, weak)
}

} // verus!
