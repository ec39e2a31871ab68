//! The `[correction]` section of the settings file: whether typo
//! correction is on, and how strong it is.
use vstd::prelude::*;
use crate::text::{
    chars_of, eq_vec, lines_seq, lines_vec, lower_seq, lower_vec, slice_vec, split_once, split_once_vec,
    trim_seq, trim_vec,
};

verus! {

#[derive(Clone, Copy, Debug)]
pub struct CorrectionPrefs {
    pub enabled: bool,
    pub level: CorrectionLevel,
}

#[derive(Clone, Copy, Debug, PartialEq, Eq, Structural)]
pub enum CorrectionLevel {
    Light,
    Medium,
    Strong,
}

impl Default for CorrectionPrefs {
    /// Correction on, at its strongest.
    fn default() -> (r: Self)
        ensures
            r.enabled && r.level == CorrectionLevel::Strong,
    {
        CorrectionPrefs { enabled: true, level: CorrectionLevel::Strong }
    }
}

/// Words that switch a setting on: `1`, `true`, `yes`, `on`, `enabled`.
pub open spec fn is_true_word(t: Seq<char>) -> bool {
    ||| t == seq!['1']
    ||| t == seq!['t', 'r', 'u', 'e']
    ||| t == seq!['y', 'e', 's']
    ||| t == seq!['o', 'n']
    ||| t == seq!['e', 'n', 'a', 'b', 'l', 'e', 'd']
}

/// Words that switch a setting off: `0`, `false`, `no`, `off`, `disabled`.
pub open spec fn is_false_word(t: Seq<char>) -> bool {
    ||| t == seq!['0']
    ||| t == seq!['f', 'a', 'l', 's', 'e']
    ||| t == seq!['n', 'o']
    ||| t == seq!['o', 'f', 'f']
    ||| t == seq!['d', 'i', 's', 'a', 'b', 'l', 'e', 'd']
}

/// A switch value, read without surrounding whitespace and ignoring ASCII
/// case; `default` when it is neither an on nor an off word.
pub open spec fn bool_value(v: Seq<char>, default: bool) -> bool {
    let t = lower_seq(trim_seq(v));
    if is_true_word(t) {
        true
    } else if is_false_word(t) {
        false
    } else {
        default
    }
}

pub open spec fn is_light_word(t: Seq<char>) -> bool {
    ||| t == seq!['l', 'i', 'g', 'h', 't']
    ||| t == seq!['l', 'i', 't', 'e']
    ||| t == seq!['l', 'o', 'w']
    ||| t == seq!['c', 'o', 'n', 's', 'e', 'r', 'v', 'a', 't', 'i', 'v', 'e']
    ||| t == seq!['轻']
    ||| t == seq!['轻', '纠', '错']
}

pub open spec fn is_medium_word(t: Seq<char>) -> bool {
    ||| t == seq!['m', 'e', 'd', 'i', 'u', 'm']
    ||| t == seq!['n', 'o', 'r', 'm', 'a', 'l']
    ||| t == seq!['d', 'e', 'f', 'a', 'u', 'l', 't']
    ||| t == seq!['m', 'i', 'd']
    ||| t == seq!['中']
    ||| t == seq!['中', '纠', '错']
}

pub open spec fn is_strong_word(t: Seq<char>) -> bool {
    ||| t == seq!['s', 't', 'r', 'o', 'n', 'g']
    ||| t == seq!['h', 'i', 'g', 'h']
    ||| t == seq!['a', 'g', 'g', 'r', 'e', 's', 's', 'i', 'v', 'e']
    ||| t == seq!['强']
    ||| t == seq!['强', '纠', '错']
}

/// A level value, read without surrounding whitespace and ignoring ASCII
/// case; `default` when it names no level.
pub open spec fn level_value(v: Seq<char>, default: CorrectionLevel) -> CorrectionLevel {
    let t = lower_seq(trim_seq(v));
    if is_light_word(t) {
        CorrectionLevel::Light
    } else if is_medium_word(t) {
        CorrectionLevel::Medium
    } else if is_strong_word(t) {
        CorrectionLevel::Strong
    } else {
        default
    }
}

/// The level words, read without surrounding whitespace and ignoring ASCII
/// case: `light`, `lite`, `low`, `conservative`, `轻` and `轻纠错` name the
/// light level; `medium`, `normal`, `default`, `mid`, `中` and `中纠错` the
/// medium level; `strong`, `high`, `aggressive`, `强` and `强纠错` the strong
/// level; any other value keeps the level it replaces.
pub proof fn lemma_level_words(v: Seq<char>, d: CorrectionLevel)
    ensures
        ({
            let t = lower_seq(trim_seq(v));
            &&& (t == seq!['l', 'i', 'g', 'h', 't'] || t == seq!['l', 'i', 't', 'e'] || t == seq!['l', 'o', 'w'] || t == seq!['c', 'o', 'n', 's', 'e', 'r', 'v', 'a', 't', 'i', 'v', 'e'] || t == seq!['轻'] || t == seq!['轻', '纠', '错']) ==> level_value(v, d) == CorrectionLevel::Light
            &&& (t == seq!['m', 'e', 'd', 'i', 'u', 'm'] || t == seq!['n', 'o', 'r', 'm', 'a', 'l'] || t == seq!['d', 'e', 'f', 'a', 'u', 'l', 't'] || t == seq!['m', 'i', 'd'] || t == seq!['中'] || t == seq!['中', '纠', '错']) ==> level_value(v, d) == CorrectionLevel::Medium
            &&& (t == seq!['s', 't', 'r', 'o', 'n', 'g'] || t == seq!['h', 'i', 'g', 'h'] || t == seq!['a', 'g', 'g', 'r', 'e', 's', 's', 'i', 'v', 'e'] || t == seq!['强'] || t == seq!['强', '纠', '错']) ==> level_value(v, d) == CorrectionLevel::Strong
            &&& !(t == seq!['l', 'i', 'g', 'h', 't'] || t == seq!['l', 'i', 't', 'e'] || t == seq!['l', 'o', 'w'] || t == seq!['c', 'o', 'n', 's', 'e', 'r', 'v', 'a', 't', 'i', 'v', 'e'] || t == seq!['轻'] || t == seq!['轻', '纠', '错'] || t == seq!['m', 'e', 'd', 'i', 'u', 'm'] || t == seq!['n', 'o', 'r', 'm', 'a', 'l'] || t == seq!['d', 'e', 'f', 'a', 'u', 'l', 't'] || t == seq!['m', 'i', 'd'] || t == seq!['中'] || t == seq!['中', '纠', '错'] || t == seq!['s', 't', 'r', 'o', 'n', 'g'] || t == seq!['h', 'i', 'g', 'h'] || t == seq!['a', 'g', 'g', 'r', 'e', 's', 's', 'i', 'v', 'e'] || t == seq!['强'] || t == seq!['强', '纠', '错']) ==> level_value(v, d) == d
        }),
{
    let t = lower_seq(trim_seq(v));
    assert(seq!['l', 'i', 'g', 'h', 't'][0] == 'l' && seq!['l', 'i', 'g', 'h', 't'].len() == 5);
    assert(seq!['l', 'i', 't', 'e'][0] == 'l' && seq!['l', 'i', 't', 'e'].len() == 4);
    assert(seq!['l', 'o', 'w'][0] == 'l' && seq!['l', 'o', 'w'].len() == 3);
    assert(seq!['c', 'o', 'n', 's', 'e', 'r', 'v', 'a', 't', 'i', 'v', 'e'][0] == 'c' && seq!['c', 'o', 'n', 's', 'e', 'r', 'v', 'a', 't', 'i', 'v', 'e'].len() == 12);
    assert(seq!['轻'][0] == '轻' && seq!['轻'].len() == 1);
    assert(seq!['轻', '纠', '错'][0] == '轻' && seq!['轻', '纠', '错'].len() == 3);
    assert(seq!['m', 'e', 'd', 'i', 'u', 'm'][0] == 'm' && seq!['m', 'e', 'd', 'i', 'u', 'm'].len() == 6);
    assert(seq!['n', 'o', 'r', 'm', 'a', 'l'][0] == 'n' && seq!['n', 'o', 'r', 'm', 'a', 'l'].len() == 6);
    assert(seq!['d', 'e', 'f', 'a', 'u', 'l', 't'][0] == 'd' && seq!['d', 'e', 'f', 'a', 'u', 'l', 't'].len() == 7);
    assert(seq!['m', 'i', 'd'][0] == 'm' && seq!['m', 'i', 'd'].len() == 3);
    assert(seq!['中'][0] == '中' && seq!['中'].len() == 1);
    assert(seq!['中', '纠', '错'][0] == '中' && seq!['中', '纠', '错'].len() == 3);
    assert(seq!['s', 't', 'r', 'o', 'n', 'g'][0] == 's' && seq!['s', 't', 'r', 'o', 'n', 'g'].len() == 6);
    assert(seq!['h', 'i', 'g', 'h'][0] == 'h' && seq!['h', 'i', 'g', 'h'].len() == 4);
    assert(seq!['a', 'g', 'g', 'r', 'e', 's', 's', 'i', 'v', 'e'][0] == 'a' && seq!['a', 'g', 'g', 'r', 'e', 's', 's', 'i', 'v', 'e'].len() == 10);
    assert(seq!['强'][0] == '强' && seq!['强'].len() == 1);
    assert(seq!['强', '纠', '错'][0] == '强' && seq!['强', '纠', '错'].len() == 3);
}

/// `t` is the one-character word `c`.
fn is_one_char(t: &Vec<char>, c: char) -> (r: bool)
    ensures
        r == (t@ == seq![c]),
{
    if t.len() == 1 && t[0] == c {
        assert(t@ =~= seq![c]);
        true
    } else {
        false
    }
}

fn is_true_vec(t: &Vec<char>) -> (r: bool)
    ensures
        r == is_true_word(t@),
{
    is_one_char(t, '1') || eq_vec(t, &vec!['t', 'r', 'u', 'e']) || eq_vec(t, &vec!['y', 'e', 's'])
        || eq_vec(t, &vec!['o', 'n']) || eq_vec(t, &vec!['e', 'n', 'a', 'b', 'l', 'e', 'd'])
}

fn is_false_vec(t: &Vec<char>) -> (r: bool)
    ensures
        r == is_false_word(t@),
{
    is_one_char(t, '0') || eq_vec(t, &vec!['f', 'a', 'l', 's', 'e']) || eq_vec(t, &vec!['n', 'o'])
        || eq_vec(t, &vec!['o', 'f', 'f']) || eq_vec(t, &vec!['d', 'i', 's', 'a', 'b', 'l', 'e', 'd'])
}

fn parse_bool(value: &Vec<char>, default: bool) -> (r: bool)
    ensures
        r == bool_value(value@, default),
{
    let t = lower_vec(&trim_vec(value));
    if is_true_vec(&t) {
        true
    } else if is_false_vec(&t) {
        false
    } else {
        default
    }
}

fn parse_level(value: &Vec<char>, default: CorrectionLevel) -> (r: CorrectionLevel)
    ensures
        r == level_value(value@, default),
{
    let t = lower_vec(&trim_vec(value));
    if eq_vec(&t, &vec!['l', 'i', 'g', 'h', 't']) || eq_vec(&t, &vec!['l', 'i', 't', 'e']) || eq_vec(
        &t,
        &vec!['l', 'o', 'w'],
    ) || eq_vec(&t, &vec!['c', 'o', 'n', 's', 'e', 'r', 'v', 'a', 't', 'i', 'v', 'e']) || is_one_char(&t, '轻') || eq_vec(&t, &vec!['轻', '纠', '错']) {
        CorrectionLevel::Light
    } else if eq_vec(&t, &vec!['m', 'e', 'd', 'i', 'u', 'm']) || eq_vec(&t, &vec!['n', 'o', 'r', 'm', 'a', 'l'])
        || eq_vec(&t, &vec!['d', 'e', 'f', 'a', 'u', 'l', 't']) || eq_vec(&t, &vec!['m', 'i', 'd']) || is_one_char(&t, '中') || eq_vec(&t, &vec!['中', '纠', '错']) {
        CorrectionLevel::Medium
    } else if eq_vec(&t, &vec!['s', 't', 'r', 'o', 'n', 'g']) || eq_vec(&t, &vec!['h', 'i', 'g', 'h']) || eq_vec(
        &t,
        &vec!['a', 'g', 'g', 'r', 'e', 's', 's', 'i', 'v', 'e'],
    ) || is_one_char(&t, '强') || eq_vec(&t, &vec!['强', '纠', '错']) {
        CorrectionLevel::Strong
    } else {
        default
    }
}

/// The name of the section that `line` opens, lower-cased and without
/// surrounding whitespace, when `line` is a `[...]` header.
pub open spec fn section_name(line: Seq<char>) -> Option<Seq<char>> {
    if line.len() >= 2 && line[0] == '[' && line.last() == ']' {
        Some(lower_seq(trim_seq(line.subrange(1, line.len() - 1))))
    } else {
        None
    }
}

pub fn section_name_vec(line: &Vec<char>) -> (r: Option<Vec<char>>)
    ensures
        match r {
            Some(v) => section_name(line@) == Some(v@),
            None => section_name(line@) is None,
        },
{
    if line.len() >= 2 && line[0] == '[' && line[line.len() - 1] == ']' {
        let inner = slice_vec(line, 1, line.len() - 1);
        assert(inner@ =~= line@.subrange(1, line@.len() - 1));
        Some(lower_vec(&trim_vec(&inner)))
    } else {
        None
    }
}

/// Reading state: enabled, level, and whether the current line is inside
/// the `[correction]` section.
pub type CorrectionScan = (bool, CorrectionLevel, bool);

/// One line of the settings text: blank lines and `;` or `#` comments are
/// skipped, a header enters or leaves the section, and inside the section
/// `enabled = ...` sets the switch and `level`, `mode` or `strategy = ...`
/// the level; other lines are ignored.
pub open spec fn correction_step(st: CorrectionScan, raw: Seq<char>) -> CorrectionScan {
    let line = trim_seq(raw);
    if line.len() == 0 || line[0] == ';' || line[0] == '#' {
        st
    } else if section_name(line) is Some {
        (st.0, st.1, section_name(line) == Some(seq!['c', 'o', 'r', 'r', 'e', 'c', 't', 'i', 'o', 'n']))
    } else if !st.2 {
        st
    } else {
        match split_once(line, '=') {
            None => st,
            Some(kv) => {
                let k = lower_seq(trim_seq(kv.0));
                if k == seq!['e', 'n', 'a', 'b', 'l', 'e', 'd'] {
                    (bool_value(kv.1, st.0), st.1, st.2)
                } else if k == seq!['l', 'e', 'v', 'e', 'l'] || k == seq!['m', 'o', 'd', 'e'] || k == seq![
                    's',
                    't',
                    'r',
                    'a',
                    't',
                    'e',
                    'g',
                    'y',
                ] {
                    (st.0, level_value(kv.1, st.1), st.2)
                } else {
                    st
                }
            },
        }
    }
}

pub open spec fn correction_scan(lines: Seq<Seq<char>>) -> CorrectionScan
    decreases lines.len(),
{
    if lines.len() == 0 {
        (true, CorrectionLevel::Strong, false)
    } else {
        correction_step(correction_scan(lines.drop_last()), lines.last())
    }
}

/// The correction settings that `text` gives, starting from the defaults.
pub open spec fn correction_prefs_of(text: Seq<char>) -> (bool, CorrectionLevel) {
    let st = correction_scan(lines_seq(text));
    (st.0, st.1)
}

/// Reads the `[correction]` section of a settings text.
pub fn parse_correction_section(text: &str) -> (r: CorrectionPrefs)
    ensures
        (r.enabled, r.level) == correction_prefs_of(text@),
{
    let mut out = CorrectionPrefs::default();
    let mut in_section = false;
    let lines = lines_vec(&chars_of(text));
    let ghost ls = lines@.map_values(|v: Vec<char>| v@);
    let mut i: usize = 0;
    while i < lines.len()
        invariant
            i <= lines.len(),
            ls == lines@.map_values(|v: Vec<char>| v@),
            ls == lines_seq(text@),
            (out.enabled, out.level, in_section) == correction_scan(ls.take(i as int)),
        decreases lines.len() - i,
    {
        assert(ls.take(i + 1).drop_last() =~= ls.take(i as int));
        assert(ls[i as int] == lines@[i as int]@);
        let line = trim_vec(&lines[i]);
        if line.len() == 0 || line[0] == ';' || line[0] == '#' {
        } else {
            match section_name_vec(&line) {
                Some(name) => {
                    in_section = eq_vec(&name, &vec!['c', 'o', 'r', 'r', 'e', 'c', 't', 'i', 'o', 'n']);
                },
                None => {
                    if in_section {
                        match split_once_vec(&line, '=') {
                            None => {},
                            Some((k, v)) => {
                                let kl = lower_vec(&trim_vec(&k));
                                if eq_vec(&kl, &vec!['e', 'n', 'a', 'b', 'l', 'e', 'd']) {
                                    out.enabled = parse_bool(&v, out.enabled);
                                } else if eq_vec(&kl, &vec!['l', 'e', 'v', 'e', 'l']) || eq_vec(
                                    &kl,
                                    &vec!['m', 'o', 'd', 'e'],
                                ) || eq_vec(&kl, &vec!['s', 't', 'r', 'a', 't', 'e', 'g', 'y']) {
                                    out.level = parse_level(&v, out.level);
                                }
                            },
                        }
                    }
                },
            }
        }
        i += 1;
    }
    assert(ls.take(lines.len() as int) =~= ls);
    out
}

/// The correction settings of the settings text `config`.
pub fn get_correction_prefs(config: &str) -> (r: CorrectionPrefs)
    ensures
        (r.enabled, r.level) == correction_prefs_of(config@),
{
    parse_correction_section(config)
}

} // verus!
