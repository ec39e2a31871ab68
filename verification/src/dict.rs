//! Character readings and the reading -> characters index.
use vstd::prelude::*;
use vstd::hash_map::StringHashMap;
use vstd::hash_set::StringHashSet;
use pinyin::ToPinyin;
use crate::text::{
    chars_of, is_ws, is_ws_char, lines_seq, lines_vec, lower_seq, lower_vec, split_seq,
    split_vec, starts_with, string_of, trim_seq, trim_vec, occurs_at, occurs_at_exec,
};

verus! {

/// Accepted readings of single characters, one row per line:
/// character, reading, weight, category.  Rows of category `historical`
/// record obsolete readings and are never offered.
pub const PRONUNCIATION_ALIASES: &'static str = "# char\treading\tweight\tcategory\n\
重\tchong\t80\tmodern\n\
行\thang\t80\tmodern\n\
着\tzhao\t60\tmodern\n\
着\tzhuo\t40\tmodern\n\
乐\tyue\t80\tmodern\n\
长\tzhang\t80\tmodern\n\
还\thuan\t70\tmodern\n\
得\tdei\t50\tmodern\n\
了\tliao\t60\tmodern\n\
地\tdi\t60\tmodern\n\
的\tdi\t40\tmodern\n\
和\thuo\t40\tmodern\n\
都\tdou\t80\tmodern\n\
为\twei\t60\tmodern\n\
差\tchai\t50\tmodern\n\
传\tzhuan\t50\tmodern\n\
大\tdai\t40\tmodern\n\
调\tdiao\t60\tmodern\n\
觉\tjiao\t60\tmodern\n\
数\tshuo\t30\tmodern\n\
朝\tchao\t60\tmodern\n\
便\tpian\t50\tmodern\n\
种\tchong\t20\tmodern\n\
教\tjiao\t60\tmodern\n\
相\txiang\t60\tmodern\n\
降\txiang\t40\tmodern\n\
藏\tzang\t50\tmodern\n\
弹\ttan\t50\tmodern\n\
露\tlou\t40\tmodern\n\
薄\tbao\t40\tmodern\n\
血\txie\t40\tmodern\n\
会\tkuai\t40\tmodern\n\
给\tji\t30\tmodern\n\
参\tshen\t40\tmodern\n\
曾\tceng\t60\tmodern\n\
单\tshan\t40\tmodern\n\
省\txing\t40\tmodern\n\
模\tmu\t40\tmodern\n\
没\tmo\t40\tmodern\n\
强\tjiang\t40\tmodern\n\
盛\tcheng\t40\tmodern\n\
称\tchen\t30\tmodern\n\
率\tshuai\t40\tmodern\n\
属\tzhu\t30\tmodern\n\
恶\twu\t40\tmodern\n\
卷\tjuan\t40\tmodern\n\
折\tshe\t40\tmodern\n\
冲\tchong\t60\tmodern\n\
系\tji\t50\tmodern\n\
结\tjie\t50\tmodern\n\
供\tgong\t50\tmodern\n\
划\thua\t50\tmodern\n\
处\tchu\t60\tmodern\n\
只\tzhi\t60\tmodern\n\
似\tshi\t40\tmodern\n\
那\tnei\t30\tmodern\n\
这\tzhei\t30\tmodern\n\
而\tneng\t1\thistorical\n\
是\tti\t1\thistorical\n\
不\tfou\t1\thistorical\n\
也\tyi\t1\thistorical\n\
他\ttuo\t1\thistorical\n\
年\tning\t1\thistorical\n\
个\tgan\t1\thistorical\n\
前\tjian\t1\thistorical\n\
听\tyin\t1\thistorical\n\
她\tjie\t1\thistorical\n\
它\ttuo\t1\thistorical\n\
能\txiong\t1\thistorical\n";

/// `s` with every non-overlapping occurrence of `pat` replaced by `rep`,
/// scanning from the left, as `str::replace` does.
pub open spec fn replace_seq(s: Seq<char>, pat: Seq<char>, rep: Seq<char>) -> Seq<char>
    decreases s.len(),
{
    if pat.len() == 0 || s.len() == 0 {
        s
    } else if starts_with(s, pat) {
        rep + replace_seq(s.skip(pat.len() as int), pat, rep)
    } else {
        seq![s[0]] + replace_seq(s.drop_first(), pat, rep)
    }
}

pub open spec fn umlaut_to_v(c: char) -> char {
    if c == 'ü' {
        'v'
    } else {
        c
    }
}

/// The `v` spelling of a reading: `ü` becomes `v`, and `nue`/`lue` become
/// `nve`/`lve`.
pub open spec fn normalized_key(s: Seq<char>) -> Seq<char> {
    let a = s.map_values(|c: char| umlaut_to_v(c));
    let b = replace_seq(a, seq!['n', 'u', 'e'], seq!['n', 'v', 'e']);
    replace_seq(b, seq!['l', 'u', 'e'], seq!['l', 'v', 'e'])
}

proof fn lemma_replace_step(s: Seq<char>, pat: Seq<char>, rep: Seq<char>, i: int)
    requires
        pat.len() > 0,
        0 <= i < s.len(),
    ensures
        occurs_at(s, pat, i) ==> replace_seq(s.skip(i), pat, rep) == rep + replace_seq(
            s.skip(i + pat.len()),
            pat,
            rep,
        ),
        !occurs_at(s, pat, i) ==> replace_seq(s.skip(i), pat, rep) == seq![s[i]] + replace_seq(
            s.skip(i + 1),
            pat,
            rep,
        ),
{
    let t = s.skip(i);
    if occurs_at(s, pat, i) {
        assert(t.subrange(0, pat.len() as int) =~= s.subrange(i, i + pat.len()));
        assert(t.skip(pat.len() as int) =~= s.skip(i + pat.len()));
    } else {
        if pat.len() <= t.len() {
            assert(t.subrange(0, pat.len() as int) =~= s.subrange(i, i + pat.len()));
        }
        assert(t.drop_first() =~= s.skip(i + 1));
    }
}

fn append_chars(out: &mut Vec<char>, v: &Vec<char>)
    ensures
        final(out)@ == old(out)@ + v@,
{
    let mut i: usize = 0;
    while i < v.len()
        invariant
            i <= v.len(),
            out@ == old(out)@ + v@.take(i as int),
        decreases v.len() - i,
    {
        out.push(v[i]);
        assert(v@.take(i + 1) =~= v@.take(i as int).push(v@[i as int]));
        i += 1;
    }
    assert(v@.take(v.len() as int) =~= v@);
}

/// `str::replace` for a non-empty pattern.
pub fn replace_all_vec(s: &Vec<char>, pat: &Vec<char>, rep: &Vec<char>) -> (r: Vec<char>)
    requires
        pat.len() > 0,
    ensures
        r@ == replace_seq(s@, pat@, rep@),
{
    let mut out: Vec<char> = Vec::new();
    let mut i: usize = 0;
    assert(s@.skip(0) =~= s@);
    while i < s.len()
        invariant
            pat.len() > 0,
            i <= s.len(),
            out@ + replace_seq(s@.skip(i as int), pat@, rep@) == replace_seq(s@, pat@, rep@),
        decreases s.len() - i,
    {
        proof {
            lemma_replace_step(s@, pat@, rep@, i as int);
        }
        if occurs_at_exec(s, pat, i) {
            let ghost before = out@;
            append_chars(&mut out, rep);
            assert(out@ + replace_seq(s@.skip(i + pat.len()), pat@, rep@) =~= before + (rep@
                + replace_seq(s@.skip(i + pat.len()), pat@, rep@)));
            i += pat.len();
        } else {
            let ghost before = out@;
            out.push(s[i]);
            assert(out@ + replace_seq(s@.skip(i + 1), pat@, rep@) =~= before + (seq![s@[i as int]]
                + replace_seq(s@.skip(i + 1), pat@, rep@)));
            i += 1;
        }
    }
    assert(s@.skip(i as int) =~= Seq::<char>::empty());
    assert(out@ + Seq::<char>::empty() =~= out@);
    out
}

pub(crate) fn normalize_key_vec(key: &Vec<char>) -> (r: Vec<char>)
    ensures
        r@ == normalized_key(key@),
{
    let mut a: Vec<char> = Vec::new();
    let mut i: usize = 0;
    while i < key.len()
        invariant
            i <= key.len(),
            a@ =~= key@.take(i as int).map_values(|c: char| umlaut_to_v(c)),
        decreases key.len() - i,
    {
        let c = key[i];
        a.push(if c == 'ü' { 'v' } else { c });
        i += 1;
    }
    assert(key@.take(key.len() as int) =~= key@);
    let nue: Vec<char> = vec!['n', 'u', 'e'];
    let nve: Vec<char> = vec!['n', 'v', 'e'];
    let lue: Vec<char> = vec!['l', 'u', 'e'];
    let lve: Vec<char> = vec!['l', 'v', 'e'];
    let b = replace_all_vec(&a, &nue, &nve);
    replace_all_vec(&b, &lue, &lve)
}

/// Normalizes a reading to its `v` spelling.
pub fn normalize_pinyin_key(key: &str) -> (r: String)
    ensures
        r@ == normalized_key(key@),
{
    let v = chars_of(key);
    let n = normalize_key_vec(&v);
    string_of(&n)
}

/// Case-insensitive comparison of `s` with the word `historical`.
pub open spec fn is_historical(s: Seq<char>) -> bool {
    lower_seq(s) == seq!['h', 'i', 's', 't', 'o', 'r', 'i', 'c', 'a', 'l']
}

/// The alias that one line of the alias table declares, if it declares one.
pub open spec fn alias_row(line: Seq<char>) -> Option<(char, Seq<char>)> {
    let t = trim_seq(line);
    let fields = split_seq(t, '\t');
    let phrase = fields[0];
    if t.len() == 0 || t[0] == '#' {
        None
    } else if phrase.len() != 1 || fields.len() < 2 {
        None
    } else if fields.len() >= 4 && is_historical(fields[3]) {
        None
    } else {
        let reading = normalized_key(lower_seq(fields[1]));
        if reading.len() == 0 {
            None
        } else {
            Some((phrase[0], reading))
        }
    }
}

/// The aliases that a whole table declares, in table order.
pub open spec fn alias_rows(text: Seq<char>) -> Seq<(char, Seq<char>)> {
    lines_seq(text).filter_map(|l: Seq<char>| alias_row(l))
}

/// One alias, as the table parser hands it out.
pub struct AliasRow {
    pub ch: char,
    pub reading: String,
}

pub open spec fn alias_row_view(r: AliasRow) -> (char, Seq<char>) {
    (r.ch, r.reading@)
}

fn is_historical_vec(s: &Vec<char>) -> (r: bool)
    ensures
        r == is_historical(s@),
{
    let l = lower_vec(s);
    let h: Vec<char> = vec!['h', 'i', 's', 't', 'o', 'r', 'i', 'c', 'a', 'l'];
    crate::text::eq_vec(&l, &h)
}

fn parse_alias_line(line: &Vec<char>) -> (r: Option<AliasRow>)
    ensures
        match r {
            Some(row) => alias_row(line@) == Some(alias_row_view(row)),
            None => alias_row(line@) is None,
        },
{
    let t = trim_vec(line);
    if t.len() == 0 || t[0] == '#' {
        return None;
    }
    let fields = split_vec(&t, '\t');
    proof {
        assert(fields@.map_values(|v: Vec<char>| v@)[0] == fields@[0]@);
    }
    if fields[0].len() != 1 || fields.len() < 2 {
        return None;
    }
    assert(fields@.map_values(|v: Vec<char>| v@)[1] == fields@[1]@);
    if fields.len() >= 4 {
        assert(fields@.map_values(|v: Vec<char>| v@)[3] == fields@[3]@);
        if is_historical_vec(&fields[3]) {
            return None;
        }
    }
    let lowered = lower_vec(&fields[1]);
    let reading = normalize_key_vec(&lowered);
    if reading.len() == 0 {
        return None;
    }
    Some(AliasRow { ch: fields[0][0], reading: string_of(&reading) })
}

/// Parses an alias table.
pub fn parse_alias_table(text: &str) -> (r: Vec<AliasRow>)
    ensures
        r@.map_values(|a: AliasRow| alias_row_view(a)) == alias_rows(text@),
{
    let s = chars_of(text);
    let lines = lines_vec(&s);
    let ghost ls = lines@.map_values(|v: Vec<char>| v@);
    let mut out: Vec<AliasRow> = Vec::new();
    let mut i: usize = 0;
    while i < lines.len()
        invariant
            i <= lines.len(),
            ls == lines@.map_values(|v: Vec<char>| v@),
            ls == lines_seq(text@),
            out@.map_values(|a: AliasRow| alias_row_view(a)) == ls.take(i as int).filter_map(
                |l: Seq<char>| alias_row(l),
            ),
        decreases lines.len() - i,
    {
        let row = parse_alias_line(&lines[i]);
        proof {
            let f = |l: Seq<char>| alias_row(l);
            assert(ls.take(i + 1) =~= ls.take(i as int).push(ls[i as int]));
            ls.lemma_filter_map_take_succ(f, i as int);
            assert(ls[i as int] == lines@[i as int]@);
        }
        let ghost before = out@.map_values(|a: AliasRow| alias_row_view(a));
        match row {
            Some(a) => {
                out.push(a);
                assert(out@.map_values(|a: AliasRow| alias_row_view(a)) =~= before.push(
                    alias_row_view(out@[out@.len() - 1]),
                ));
            },
            None => {},
        }
        i += 1;
    }
    assert(ls.take(lines.len() as int) =~= ls);
    out
}

/// The reading that the `pinyin` crate records first for a character.
pub uninterp spec fn pinyin_primary(c: char) -> Option<Seq<char>>;

/// Calls `<char as pinyin::ToPinyin>::to_pinyin` and reads the plain
/// (toneless) spelling of the result with `pinyin::Pinyin::plain`.  The
/// contract names the spelling `pinyin_primary(c)` and claims nothing else of
/// it: its content comes from the crate's data table.
#[verifier::external_body]
fn primary_plain_reading(c: char) -> (r: Option<String>)
    ensures
        match r {
            Some(s) => pinyin_primary(c) == Some(s@),
            None => pinyin_primary(c) is None,
        },
{
    match c.to_pinyin() {
        Some(p) => Some(p.plain().to_string()),
        None => None,
    }
}

pub open spec fn push_unique_seq(s: Seq<Seq<char>>, x: Seq<char>) -> Seq<Seq<char>> {
    if s.contains(x) {
        s
    } else {
        s.push(x)
    }
}

/// The normalized primary reading of `c`, when it is not empty.
pub open spec fn primary_options(c: char) -> Seq<Seq<char>> {
    primary_reading_options(pinyin_primary(c))
}

/// The option a primary reading gives: its spelling lower-cased in `v`
/// spelling, when that is not empty.
pub open spec fn primary_reading_options(primary: Option<Seq<char>>) -> Seq<Seq<char>> {
    match primary {
        Some(p) => {
            let n = normalized_key(lower_seq(p));
            if n.len() > 0 {
                seq![n]
            } else {
                Seq::empty()
            }
        },
        None => Seq::empty(),
    }
}

/// `acc`, then every alias of `c` in `rows` that is not already present.
pub open spec fn add_aliases(acc: Seq<Seq<char>>, rows: Seq<(char, Seq<char>)>, c: char) -> Seq<
    Seq<char>,
>
    decreases rows.len(),
{
    if rows.len() == 0 {
        acc
    } else {
        let before = add_aliases(acc, rows.drop_last(), c);
        if rows.last().0 == c {
            push_unique_seq(before, rows.last().1)
        } else {
            before
        }
    }
}

/// The readings offered for `c`: the primary reading, then the accepted
/// aliases, each once.
pub open spec fn plain_options(c: char, rows: Seq<(char, Seq<char>)>) -> Seq<Seq<char>> {
    add_aliases(primary_options(c), rows, c)
}

pub open spec fn alias_rows_view(rows: Seq<AliasRow>) -> Seq<(char, Seq<char>)> {
    rows.map_values(|a: AliasRow| alias_row_view(a))
}

pub open spec fn strings_view(v: Seq<String>) -> Seq<Seq<char>> {
    v.map_values(|s: String| s@)
}

pub(crate) fn contains_string(v: &Vec<String>, x: &String) -> (r: bool)
    ensures
        r == strings_view(v@).contains(x@),
{
    let mut i: usize = 0;
    while i < v.len()
        invariant
            i <= v.len(),
            forall|k: int| 0 <= k < i ==> v@[k]@ != x@,
        decreases v.len() - i,
    {
        let a = chars_of(v[i].as_str());
        let b = chars_of(x.as_str());
        if crate::text::eq_vec(&a, &b) {
            assert(strings_view(v@)[i as int] == x@);
            return true;
        }
        i += 1;
    }
    assert forall|k: int| 0 <= k < strings_view(v@).len() implies strings_view(v@)[k] != x@ by {
        assert(strings_view(v@)[k] == v@[k]@);
    }
    false
}

/// The readings of `c` from its primary reading `primary` (as the `pinyin`
/// crate records it, if it does) and the parsed alias table `rows`: the
/// primary reading normalized, then each alias of `c` not already present.
pub fn reading_options(c: char, primary: Option<&str>, rows: &Vec<AliasRow>) -> (r: Vec<String>)
    ensures
        strings_view(r@) == add_aliases(
            primary_reading_options(
                match primary {
                    Some(p) => Some(p@),
                    None => None,
                },
            ),
            alias_rows_view(rows@),
            c,
        ),
{
    let ghost pv = match primary {
        Some(p) => Some(p@),
        None => None::<Seq<char>>,
    };
    let mut out: Vec<String> = Vec::new();
    match primary {
        Some(py) => {
            let lowered = lower_vec(&chars_of(py));
            let plain = normalize_key_vec(&lowered);
            if plain.len() > 0 {
                out.push(string_of(&plain));
            }
        },
        None => {},
    }
    assert(strings_view(out@) =~= primary_reading_options(pv));
    let ghost rs = alias_rows_view(rows@);
    let mut i: usize = 0;
    while i < rows.len()
        invariant
            i <= rows.len(),
            rs == alias_rows_view(rows@),
            strings_view(out@) == add_aliases(primary_reading_options(pv), rs.take(i as int), c),
        decreases rows.len() - i,
    {
        assert(rs.take(i + 1).drop_last() =~= rs.take(i as int));
        assert(rs[i as int] == alias_row_view(rows@[i as int]));
        if rows[i].ch == c {
            if !contains_string(&out, &rows[i].reading) {
                let ghost before = strings_view(out@);
                out.push(rows[i].reading.clone());
                assert(strings_view(out@) =~= before.push(rows@[i as int].reading@));
            }
        }
        i += 1;
    }
    assert(rs.take(rows.len() as int) =~= rs);
    out
}

/// The readings of `c`, given the parsed alias table.
pub fn pinyin_plain_options_with(c: char, rows: &Vec<AliasRow>) -> (r: Vec<String>)
    ensures
        strings_view(r@) == plain_options(c, alias_rows_view(rows@)),
{
    let primary = primary_plain_reading(c);
    match primary {
        Some(py) => reading_options(c, Some(py.as_str()), rows),
        None => reading_options(c, None, rows),
    }
}

/// The modern readings the engine offers for `c`: the primary reading of the
/// `pinyin` crate, normalized, then each accepted alias of
/// `PRONUNCIATION_ALIASES` that is not already present.  Obsolete readings
/// that the crate's multi-reading table also lists are never offered.
pub fn pinyin_plain_options(c: char) -> (r: Vec<String>)
    ensures
        strings_view(r@) == plain_options(c, alias_rows(PRONUNCIATION_ALIASES@)),
{
    let rows = parse_alias_table(PRONUNCIATION_ALIASES);
    assert(alias_rows_view(rows@) == alias_rows(PRONUNCIATION_ALIASES@));
    pinyin_plain_options_with(c, &rows)
}

/// Strictly ascending: sorted, and no character twice.
pub open spec fn sorted_strict(v: Seq<char>) -> bool {
    forall|i: int, j: int| 0 <= i < j < v.len() ==> v[i] < v[j]
}

/// Inserts `c` at its sorted place unless it is already present.
pub fn insert_sorted_unique(v: &mut Vec<char>, c: char)
    requires
        sorted_strict(old(v)@),
    ensures
        sorted_strict(final(v)@),
        final(v)@.contains(c),
        forall|x: char| #[trigger] final(v)@.contains(x) <==> (old(v)@.contains(x) || x == c),
{
    let mut i: usize = 0;
    while i < v.len() && v[i] < c
        invariant
            i <= v.len(),
            forall|k: int| 0 <= k < i ==> v@[k] < c,
        decreases v.len() - i,
    {
        i += 1;
    }
    if i < v.len() && v[i] == c {
        return;
    }
    let ghost old_v = v@;
    v.insert(i, c);
    assert(v@ =~= old_v.insert(i as int, c));
    assert forall|a: int, b: int| 0 <= a < b < v@.len() implies v@[a] < v@[b] by {
        if b < i {
        } else if b == i {
        } else if a < i {
            assert(v@[a] == old_v[a]);
            assert(v@[b] == old_v[b - 1]);
        } else if a == i {
            assert(old_v[i as int] >= c);
            if b - 1 > i {
                assert(old_v[i as int] < old_v[b - 1]);
            }
        } else {
        }
    }
    assert(v@[i as int] == c);
    assert forall|x: char| #[trigger] v@.contains(x) <==> (old_v.contains(x) || x == c) by {
        if v@.contains(x) {
            let k = choose|k: int| 0 <= k < v@.len() && v@[k] == x;
            if k < i {
                assert(old_v[k] == x);
            } else if k > i {
                assert(old_v[k - 1] == x);
            }
        }
        if old_v.contains(x) {
            let k = choose|k: int| 0 <= k < old_v.len() && old_v[k] == x;
            if k < i {
                assert(v@[k] == x);
            } else {
                assert(v@[k + 1] == x);
            }
        }
    }
}

/// `c` is indexed under reading `k`: it occurs in `chars`, is not white
/// space, and `k` is one of its readings.
pub open spec fn indexed_under(
    chars: Seq<char>,
    rows: Seq<(char, Seq<char>)>,
    k: Seq<char>,
    c: char,
) -> bool {
    chars.contains(c) && !is_ws(c) && plain_options(c, rows).contains(k)
}

/// `x` is listed under reading `k` in `m`.
pub open spec fn entry_has(m: Map<Seq<char>, Vec<char>>, k: Seq<char>, x: char) -> bool {
    m.contains_key(k) && m[k]@.contains(x)
}

/// The reading index of `chars` is exactly the relation `indexed_under`, each
/// entry listed in ascending order without repeats.
pub open spec fn is_reading_index(
    m: Map<Seq<char>, Vec<char>>,
    chars: Seq<char>,
    rows: Seq<(char, Seq<char>)>,
) -> bool {
    &&& forall|k: Seq<char>| #[trigger] m.contains_key(k) ==> m[k]@.len() > 0 && sorted_strict(
        m[k]@,
    )
    &&& forall|k: Seq<char>, c: char|
        #[trigger] entry_has(m, k, c) <==> indexed_under(chars, rows, k, c)
}

/// The index after the characters `done` and, for the character `c` in
/// progress, the readings `keys`.
pub open spec fn partial_index(
    m: Map<Seq<char>, Vec<char>>,
    done: Seq<char>,
    rows: Seq<(char, Seq<char>)>,
    c: char,
    keys: Seq<Seq<char>>,
) -> bool {
    &&& forall|k: Seq<char>| #[trigger] m.contains_key(k) ==> m[k]@.len() > 0 && sorted_strict(
        m[k]@,
    )
    &&& forall|k: Seq<char>, x: char|
        #[trigger] entry_has(m, k, x) <==> (indexed_under(done, rows, k, x) || (x == c
            && keys.contains(k)))
}

proof fn lemma_partial_index_insert(
    old_m: Map<Seq<char>, Vec<char>>,
    key: Seq<char>,
    old_cur: Seq<char>,
    new_cur: Vec<char>,
    done: Seq<char>,
    rows: Seq<(char, Seq<char>)>,
    c: char,
    keys: Seq<Seq<char>>,
)
    requires
        partial_index(old_m, done, rows, c, keys),
        old_m.contains_key(key) ==> old_cur == old_m[key]@,
        !old_m.contains_key(key) ==> old_cur == Seq::<char>::empty(),
        sorted_strict(new_cur@),
        forall|x: char| #[trigger] new_cur@.contains(x) <==> (old_cur.contains(x) || x == c),
    ensures
        partial_index(old_m.insert(key, new_cur), done, rows, c, keys.push(key)),
{
    let new_m = old_m.insert(key, new_cur);
    assert(new_cur@.contains(c));
    assert forall|k: Seq<char>, x: char|
        #[trigger] entry_has(new_m, k, x) <==> (indexed_under(done, rows, k, x) || (x
            == c && keys.push(key).contains(k))) by {
        assert(entry_has(old_m, k, x) <==> (indexed_under(done, rows, k, x)
            || (x == c && keys.contains(k))));
        if k == key {
            if old_m.contains_key(k) {
                assert(old_m[k]@.contains(x) == old_cur.contains(x));
            }
            if keys.contains(k) {
                let t = choose|t: int| 0 <= t < keys.len() && keys[t] == k;
                assert(keys.push(key)[t] == k);
            }
            assert(keys.push(key)[keys.len() as int] == k);
        } else {
            assert(new_m[k] == old_m[k]);
            if keys.push(key).contains(k) {
                let t = choose|t: int| 0 <= t < keys.push(key).len() && keys.push(key)[t] == k;
                assert(keys[t] == k);
            }
            if keys.contains(k) {
                let t = choose|t: int| 0 <= t < keys.len() && keys[t] == k;
                assert(keys.push(key)[t] == k);
            }
        }
    }
}

proof fn lemma_partial_index_next(
    m: Map<Seq<char>, Vec<char>>,
    chars: Seq<char>,
    i: int,
    rows: Seq<(char, Seq<char>)>,
    keys: Seq<Seq<char>>,
)
    requires
        0 <= i < chars.len(),
        partial_index(m, chars.take(i), rows, chars[i], keys),
        is_ws(chars[i]) ==> keys.len() == 0,
        !is_ws(chars[i]) ==> keys == plain_options(chars[i], rows),
    ensures
        partial_index(m, chars.take(i + 1), rows, chars[i + 1 - 1], Seq::empty()),
{
    let pre = chars.take(i);
    let post = chars.take(i + 1);
    let c = chars[i];
    assert(post =~= pre.push(c));
    assert forall|k: Seq<char>, x: char|
        #[trigger] entry_has(m, k, x) <==> (indexed_under(post, rows, k, x) || (x == c
            && Seq::<Seq<char>>::empty().contains(k))) by {
        if pre.contains(x) {
            let t = choose|t: int| 0 <= t < pre.len() && pre[t] == x;
            assert(post[t] == x);
        }
        if post.contains(x) && x != c {
            let t = choose|t: int| 0 <= t < post.len() && post[t] == x;
            assert(pre[t] == x);
        }
        assert(post[i] == c);
        assert(entry_has(m, k, x) <==> (indexed_under(pre, rows, k, x) || (x
            == c && keys.contains(k))));
    }
}

proof fn lemma_partial_index_switch(
    m: Map<Seq<char>, Vec<char>>,
    done: Seq<char>,
    rows: Seq<(char, Seq<char>)>,
    c: char,
    d: char,
)
    requires
        partial_index(m, done, rows, c, Seq::empty()),
    ensures
        partial_index(m, done, rows, d, Seq::empty()),
{
    assert forall|k: Seq<char>, x: char|
        #[trigger] entry_has(m, k, x) <==> (indexed_under(done, rows, k, x) || (x == d
            && Seq::<Seq<char>>::empty().contains(k))) by {
        assert(entry_has(m, k, x) <==> (indexed_under(done, rows, k, x) || (x
            == c && Seq::<Seq<char>>::empty().contains(k))));
    }
}

/// Builds the reading index of `chars` with the given alias table, and the
/// set of its readings.
pub fn build_index_with(chars: &Vec<char>, rows: &Vec<AliasRow>) -> (r: (
    StringHashMap<Vec<char>>,
    StringHashSet,
))
    ensures
        is_reading_index(r.0@, chars@, alias_rows_view(rows@)),
        forall|k: Seq<char>| #[trigger] r.1@.contains(k) <==> r.0@.contains_key(k),
{
    let ghost rs = alias_rows_view(rows@);
    let mut m: StringHashMap<Vec<char>> = StringHashMap::new();
    let mut keys = StringHashSet::new();
    let mut i: usize = 0;
    assert(partial_index(m@, chars@.take(0), rs, ' ', Seq::empty()));
    while i < chars.len()
        invariant
            i <= chars.len(),
            rs == alias_rows_view(rows@),
            partial_index(m@, chars@.take(i as int), rs, ' ', Seq::empty()),
            forall|k: Seq<char>| #[trigger] keys@.contains(k) <==> m@.contains_key(k),
        decreases chars.len() - i,
    {
        let c = chars[i];
        proof {
            lemma_partial_index_switch(m@, chars@.take(i as int), rs, ' ', c);
        }
        let ghost pre = chars@.take(i as int);
        if !is_ws_char(c) && c != '\r' && c != '\n' {
            let opts = pinyin_plain_options_with(c, rows);
            let ghost ov = strings_view(opts@);
            let mut j: usize = 0;
            assert(ov.take(0) =~= Seq::<Seq<char>>::empty());
            while j < opts.len()
                invariant
                    j <= opts.len(),
                    ov == strings_view(opts@),
                    partial_index(m@, pre, rs, c, ov.take(j as int)),
                    forall|k: Seq<char>| #[trigger] keys@.contains(k) <==> m@.contains_key(k),
                decreases opts.len() - j,
            {
                let key = &opts[j];
                let mut cur: Vec<char> = Vec::new();
                match m.get(key.as_str()) {
                    Some(v) => {
                        cur = v.clone();
                        assert(cur@ =~= v@);
                    },
                    None => {},
                }
                let ghost old_cur = cur@;
                insert_sorted_unique(&mut cur, c);
                let ghost old_m = m@;
                proof {
                    assert(ov[j as int] == key@);
                    lemma_partial_index_insert(old_m, key@, old_cur, cur, pre, rs, c, ov.take(
                        j as int,
                    ));
                    assert(ov.take(j + 1) =~= ov.take(j as int).push(key@));
                }
                m.insert(key.clone(), cur);
                keys.insert(key.clone());
                j += 1;
            }
            assert(ov.take(opts.len() as int) =~= ov);
            proof {
                lemma_partial_index_next(m@, chars@, i as int, rs, ov);
            }
        } else {
            proof {
                lemma_partial_index_next(m@, chars@, i as int, rs, Seq::empty());
            }
        }
        proof {
            lemma_partial_index_switch(m@, chars@.take(i + 1), rs, c, ' ');
        }
        i += 1;
    }
    assert(chars@.take(chars.len() as int) =~= chars@);
    let ghost fm = m@;
    assert forall|k: Seq<char>, c: char|
        #[trigger] entry_has(fm, k, c) <==> indexed_under(chars@, rs, k, c) by {
        assert(entry_has(fm, k, c) <==> (indexed_under(chars@, rs, k, c) || (c
            == ' ' && Seq::<Seq<char>>::empty().contains(k))));
    }
    (m, keys)
}

/// Builds the reading index of `chars` with the given alias table.
pub fn build_dict_with(chars: &Vec<char>, rows: &Vec<AliasRow>) -> (r: StringHashMap<Vec<char>>)
    ensures
        is_reading_index(r@, chars@, alias_rows_view(rows@)),
{
    build_index_with(chars, rows).0
}

/// Indexes the characters of `chars` by every reading they are offered
/// under.  Each entry lists its characters in ascending order, once each.
pub fn build_dict(chars: &str) -> (r: StringHashMap<Vec<char>>)
    ensures
        is_reading_index(r@, chars@, alias_rows(PRONUNCIATION_ALIASES@)),
{
    let rows = parse_alias_table(PRONUNCIATION_ALIASES);
    let v = chars_of(chars);
    build_dict_with(&v, &rows)
}

} // verus!
