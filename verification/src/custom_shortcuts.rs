//! User-defined shortcuts: the `[shortcuts]` section of the settings file
//! maps a typed key to phrases, offered in their listed order.
use vstd::prelude::*;
use crate::correction_prefs::{section_name, section_name_vec};
use crate::text::{
    chars_of, eq_vec, lines_seq, lines_vec, lower_seq, lower_vec, split_once, split_once_vec, split_seq,
    split_vec, string_of, trim_seq, trim_start_char, trim_start_char_vec, trim_vec,
};

verus! {

#[derive(Clone, Debug, PartialEq, Eq)]
pub struct ShortcutCandidate {
    pub phrase: String,
    pub source_key: String,
}

/// A shortcut key as it is matched: without surrounding whitespace, ASCII
/// lower-cased.
pub open spec fn normalized_shortcut_key(s: Seq<char>) -> Seq<char> {
    lower_seq(trim_seq(s))
}

fn normalize_key(value: &Vec<char>) -> (r: Vec<char>)
    ensures
        r@ == normalized_shortcut_key(value@),
{
    lower_vec(&trim_vec(value))
}

/// A phrase with its escapes resolved: `\n` a line break, `\t` a tab, `\\`
/// a backslash; any other backslash stays as written.
pub open spec fn unescape(s: Seq<char>) -> Seq<char>
    decreases s.len(),
{
    if s.len() == 0 {
        Seq::empty()
    } else if s[0] == '\\' {
        if s.len() == 1 {
            seq!['\\']
        } else {
            let c = s[1];
            let head = if c == 'n' {
                seq!['\n']
            } else if c == 't' {
                seq!['\t']
            } else if c == '\\' {
                seq!['\\']
            } else {
                seq!['\\', c]
            };
            head + unescape(s.skip(2))
        }
    } else {
        seq![s[0]] + unescape(s.skip(1))
    }
}

fn unescape_phrase(value: &Vec<char>) -> (r: Vec<char>)
    ensures
        r@ == unescape(value@),
{
    let mut out: Vec<char> = Vec::new();
    let mut i: usize = 0;
    assert(value@.skip(0) =~= value@);
    while i < value.len()
        invariant
            i <= value.len(),
            unescape(value@) == out@ + unescape(value@.skip(i as int)),
        decreases value.len() - i,
    {
        let ghost rest = value@.skip(i as int);
        let ghost before = out@;
        let ch = value[i];
        assert(rest[0] == ch);
        if ch == '\\' {
            if i + 1 < value.len() {
                let c = value[i + 1];
                assert(rest[1] == c);
                assert(rest.skip(2) =~= value@.skip(i + 2));
                if c == 'n' {
                    out.push('\n');
                } else if c == 't' {
                    out.push('\t');
                } else if c == '\\' {
                    out.push('\\');
                } else {
                    out.push('\\');
                    out.push(c);
                }
                assert(before + (unescape(rest) ) =~= out@ + unescape(value@.skip(i + 2)));
                i += 2;
            } else {
                out.push('\\');
                assert(value@.skip(i + 1) =~= Seq::<char>::empty());
                assert(before + unescape(rest) =~= out@ + unescape(value@.skip(i + 1)));
                i += 1;
            }
        } else {
            out.push(ch);
            assert(rest.skip(1) =~= value@.skip(i + 1));
            assert(before + unescape(rest) =~= out@ + unescape(value@.skip(i + 1)));
            i += 1;
        }
    }
    assert(value@.skip(value.len() as int) =~= Seq::<char>::empty());
    assert(out@ + Seq::<char>::empty() =~= out@);
    out
}

/// The phrases of a shortcut value: its `|`-separated parts without
/// surrounding whitespace, empty ones dropped, escapes resolved.
pub open spec fn value_phrases(v: Seq<char>) -> Seq<Seq<char>> {
    split_seq(v, '|').map_values(|p: Seq<char>| trim_seq(p)).filter(|p: Seq<char>| p.len() > 0).map_values(
        |p: Seq<char>| unescape(p),
    )
}

pub open spec fn byte_order_mark() -> char {
    '\u{FEFF}'
}

/// One shortcut definition as plain values: key and phrases.
pub type ShortcutDef = (Seq<char>, Seq<Seq<char>>);

/// Reading state: the definitions so far and whether the current line is
/// inside the `[shortcuts]` section.
pub type ShortcutScan = (Seq<ShortcutDef>, bool);

/// One line of the settings text: a line is taken without surrounding
/// whitespace and leading byte-order marks; blank lines, `#` comments and
/// `;` comments without `=` are skipped; a header enters or leaves the
/// section; inside it, `key = a | b | ...` defines a shortcut when its
/// normalized key and its phrase list are not empty.
pub open spec fn shortcut_step(st: ShortcutScan, raw: Seq<char>) -> ShortcutScan {
    let line = trim_start_char(trim_seq(raw), byte_order_mark());
    if line.len() == 0 || line[0] == '#' || (line[0] == ';' && !line.contains('=')) {
        st
    } else if section_name(line) is Some {
        (st.0, section_name(line) == Some(seq!['s', 'h', 'o', 'r', 't', 'c', 'u', 't', 's']))
    } else if !st.1 {
        st
    } else {
        match split_once(line, '=') {
            None => st,
            Some(kv) => {
                let key = normalized_shortcut_key(kv.0);
                let phrases = value_phrases(kv.1);
                if key.len() == 0 || phrases.len() == 0 {
                    st
                } else {
                    (st.0.push((key, phrases)), st.1)
                }
            },
        }
    }
}

pub open spec fn shortcut_scan(lines: Seq<Seq<char>>) -> ShortcutScan
    decreases lines.len(),
{
    if lines.len() == 0 {
        (Seq::empty(), false)
    } else {
        shortcut_step(shortcut_scan(lines.drop_last()), lines.last())
    }
}

/// The shortcut definitions of a settings text, in order.
pub open spec fn shortcuts_of(text: Seq<char>) -> Seq<ShortcutDef> {
    shortcut_scan(lines_seq(text)).0
}

pub open spec fn def_view(d: (String, Vec<String>)) -> ShortcutDef {
    (d.0@, d.1@.map_values(|s: String| s@))
}

pub open spec fn defs_view(v: Seq<(String, Vec<String>)>) -> Seq<ShortcutDef> {
    v.map_values(|d: (String, Vec<String>)| def_view(d))
}

fn value_phrases_vec(v: &Vec<char>) -> (r: Vec<String>)
    ensures
        r@.map_values(|s: String| s@) == value_phrases(v@),
{
    let parts = split_vec(v, '|');
    let ghost ps = parts@.map_values(|x: Vec<char>| x@);
    let ghost trimmed = ps.map_values(|p: Seq<char>| trim_seq(p));
    let ghost f = |p: Seq<char>| p.len() > 0;
    let ghost g = |p: Seq<char>| unescape(p);
    let mut out: Vec<String> = Vec::new();
    let mut i: usize = 0;
    while i < parts.len()
        invariant
            i <= parts.len(),
            ps == parts@.map_values(|x: Vec<char>| x@),
            ps == split_seq(v@, '|'),
            trimmed == ps.map_values(|p: Seq<char>| trim_seq(p)),
            f == (|p: Seq<char>| p.len() > 0),
            g == (|p: Seq<char>| unescape(p)),
            out@.map_values(|s: String| s@) =~= trimmed.take(i as int).filter(f).map_values(g),
        decreases parts.len() - i,
    {
        proof {
            assert(trimmed.take(i + 1) =~= trimmed.take(i as int).push(trimmed[i as int]));
            trimmed.take(i as int).lemma_filter_push(trimmed[i as int], f);
        }
        assert(ps[i as int] == parts@[i as int]@);
        let t = trim_vec(&parts[i]);
        if t.len() > 0 {
            let u = unescape_phrase(&t);
            let ghost before = out@.map_values(|s: String| s@);
            out.push(string_of(&u));
            assert(out@.map_values(|s: String| s@) =~= before.push(g(trimmed[i as int])));
            assert(trimmed.take(i + 1).filter(f).map_values(g) =~= trimmed.take(i as int).filter(f).map_values(
                g,
            ).push(g(trimmed[i as int])));
        }
        i += 1;
    }
    assert(trimmed.take(parts.len() as int) =~= trimmed);
    out
}

/// The shortcut definitions of the `[shortcuts]` section of `text`.
pub fn parse_shortcuts_section(text: &str) -> (r: Vec<(String, Vec<String>)>)
    ensures
        defs_view(r@) == shortcuts_of(text@),
{
    let mut out: Vec<(String, Vec<String>)> = Vec::new();
    let mut in_section = false;
    let lines = lines_vec(&chars_of(text));
    let ghost ls = lines@.map_values(|v: Vec<char>| v@);
    let mut i: usize = 0;
    while i < lines.len()
        invariant
            i <= lines.len(),
            ls == lines@.map_values(|v: Vec<char>| v@),
            ls == lines_seq(text@),
            (defs_view(out@), in_section) == shortcut_scan(ls.take(i as int)),
        decreases lines.len() - i,
    {
        assert(ls.take(i + 1).drop_last() =~= ls.take(i as int));
        assert(ls[i as int] == lines@[i as int]@);
        let line = trim_start_char_vec(&trim_vec(&lines[i]), '\u{FEFF}');
        if line.len() == 0 || line[0] == '#' || (line[0] == ';' && !crate::text::contains_char(&line, '=')) {
        } else {
            match section_name_vec(&line) {
                Some(name) => {
                    in_section = eq_vec(&name, &vec!['s', 'h', 'o', 'r', 't', 'c', 'u', 't', 's']);
                },
                None => {
                    if in_section {
                        match split_once_vec(&line, '=') {
                            None => {},
                            Some((k, v)) => {
                                let key = normalize_key(&k);
                                let phrases = value_phrases_vec(&v);
                                if key.len() > 0 && phrases.len() > 0 {
                                    let ghost before = defs_view(out@);
                                    out.push((string_of(&key), phrases));
                                    assert(defs_view(out@) =~= before.push((key@, value_phrases(v@))));
                                }
                            },
                        }
                    }
                },
            }
        }
        i += 1;
    }
    assert(ls.take(lines.len() as int) =~= ls);
    out
}

/// The phrases of the first definition of `key`, each with the key it was
/// defined under.
pub open spec fn shortcut_lookup(defs: Seq<ShortcutDef>, key: Seq<char>) -> Option<Seq<(Seq<char>, Seq<char>)>>
    decreases defs.len(),
{
    if defs.len() == 0 {
        None
    } else if defs[0].0 == key {
        Some(defs[0].1.map_values(|p: Seq<char>| (p, defs[0].0)))
    } else {
        shortcut_lookup(defs.skip(1), key)
    }
}

pub open spec fn candidates_view(v: Seq<ShortcutCandidate>) -> Seq<(Seq<char>, Seq<char>)> {
    v.map_values(|c: ShortcutCandidate| (c.phrase@, c.source_key@))
}

/// The shortcut candidates for `input` among `entries`: none for an empty
/// key, else those of the first definition of the normalized key.
pub fn lookup_detailed(entries: &Vec<(String, Vec<String>)>, input: &str) -> (r: Option<Vec<ShortcutCandidate>>)
    ensures
        normalized_shortcut_key(input@).len() == 0 ==> r is None,
        normalized_shortcut_key(input@).len() > 0 ==> match r {
            Some(v) => shortcut_lookup(defs_view(entries@), normalized_shortcut_key(input@)) == Some(
                candidates_view(v@),
            ),
            None => shortcut_lookup(defs_view(entries@), normalized_shortcut_key(input@)) is None,
        },
{
    let key = normalize_key(&chars_of(input));
    if key.len() == 0 {
        return None;
    }
    let key_s = string_of(&key);
    let ghost dv = defs_view(entries@);
    let mut i: usize = 0;
    assert(dv.skip(0) =~= dv);
    while i < entries.len()
        invariant
            i <= entries.len(),
            dv == defs_view(entries@),
            key_s@ == key@,
            key@ == normalized_shortcut_key(input@),
            key@.len() > 0,
            shortcut_lookup(dv, key@) == shortcut_lookup(dv.skip(i as int), key@),
        decreases entries.len() - i,
    {
        let ghost rest = dv.skip(i as int);
        assert(rest[0] == def_view(entries@[i as int]));
        assert(rest.skip(1) =~= dv.skip(i + 1));
        if entries[i].0 == key_s {
            let phrases = &entries[i].1;
            let mut out: Vec<ShortcutCandidate> = Vec::new();
            let ghost pv = phrases@.map_values(|s: String| s@);
            let mut j: usize = 0;
            while j < phrases.len()
                invariant
                    j <= phrases.len(),
                    i < entries.len(),
                    pv == phrases@.map_values(|s: String| s@),
                    key_s@ == key@,
                    candidates_view(out@) =~= pv.take(j as int).map_values(|p: Seq<char>| (p, key@)),
                decreases phrases.len() - j,
            {
                let ghost before = candidates_view(out@);
                out.push(ShortcutCandidate { phrase: phrases[j].clone(), source_key: key_s.clone() });
                assert(candidates_view(out@) =~= before.push((pv[j as int], key@)));
                assert(pv.take(j + 1) =~= pv.take(j as int).push(pv[j as int]));
                j += 1;
            }
            assert(pv.take(phrases.len() as int) =~= pv);
            assert(rest[0].1 == pv);
            assert(rest[0].0 == key@);
            assert(rest[0].1.map_values(|p: Seq<char>| (p, rest[0].0)) =~= candidates_view(out@));
            return Some(out);
        }
        i += 1;
    }
    None
}

} // verus!
