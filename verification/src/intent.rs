//! What the typed input is meant as: a direct (verbatim) entry, an English
//! word, one syllable, full pinyin, a mixed full/initial key, a short
//! abbreviation, or unknown.
use vstd::prelude::*;
use crate::text::{
    chars_of, contains_char, contains_sub, contains_vec, eq_vec, is_alnum, is_alpha, is_ascii_char, is_ctrl,
    is_lower, is_upper, is_ws, lower_seq, lower_vec, slice_vec, starts_with, starts_with_vec, trim_seq,
    trim_vec,
};

verus! {

#[derive(Clone, Copy, Debug, PartialEq, Eq, Structural)]
pub enum InputIntent {
    Direct,
    English,
    SingleSyllable,
    FullPinyin,
    MixedPrefix,
    ShortAbbrev,
    Unknown,
}

/// The longest phrase, in characters, that counts as a short hot word.
pub const SHORT_HOTWORD_MAX_CHARS: usize = 4;

/// The intent of an input from its signals, in order of precedence: a
/// command or text to keep verbatim; an English word (when English words are
/// on and the input is not exact pinyin); one exact syllable; exact full
/// pinyin; a mixed full/initial key; a short abbreviation; else unknown.
pub open spec fn intent_of(
    preserve_ascii: bool,
    plain_ascii_word: bool,
    direct_input_shortcut: bool,
    english_word_input_enabled: bool,
    exact_single_syllable_input: bool,
    exact_complete_multi_input: bool,
    short_phrase_intent: Option<usize>,
    mixed_prefix_intent: bool,
) -> InputIntent {
    if direct_input_shortcut || preserve_ascii {
        InputIntent::Direct
    } else if english_word_input_enabled && plain_ascii_word && !exact_single_syllable_input
        && !exact_complete_multi_input {
        InputIntent::English
    } else if exact_single_syllable_input {
        InputIntent::SingleSyllable
    } else if exact_complete_multi_input {
        InputIntent::FullPinyin
    } else if mixed_prefix_intent {
        InputIntent::MixedPrefix
    } else if short_phrase_intent is Some {
        InputIntent::ShortAbbrev
    } else {
        InputIntent::Unknown
    }
}

pub fn classify_input_intent(
    raw: &str,
    compact_key: &str,
    direct_input_shortcut: bool,
    english_word_input_enabled: bool,
    exact_single_syllable_input: bool,
    exact_complete_multi_input: bool,
    short_phrase_intent: Option<usize>,
    mixed_prefix_intent: bool,
) -> (r: InputIntent)
    ensures
        r == intent_of(
            preserve_ascii(raw@),
            plain_ascii_word(raw@, compact_key@),
            direct_input_shortcut,
            english_word_input_enabled,
            exact_single_syllable_input,
            exact_complete_multi_input,
            short_phrase_intent,
            mixed_prefix_intent,
        ),
{
    if direct_input_shortcut || should_preserve_ascii_input(raw) {
        return InputIntent::Direct;
    }
    if english_word_input_enabled && is_plain_ascii_word_input(raw, compact_key) && !exact_single_syllable_input
        && !exact_complete_multi_input {
        return InputIntent::English;
    }
    if exact_single_syllable_input {
        return InputIntent::SingleSyllable;
    }
    if exact_complete_multi_input {
        return InputIntent::FullPinyin;
    }
    if mixed_prefix_intent {
        return InputIntent::MixedPrefix;
    }
    if short_phrase_intent.is_some() {
        return InputIntent::ShortAbbrev;
    }
    InputIntent::Unknown
}

pub open spec fn all_alpha_seq(s: Seq<char>) -> bool {
    forall|i: int| 0 <= i < s.len() ==> is_alpha(#[trigger] s[i])
}

fn all_alpha_exec(s: &Vec<char>) -> (r: bool)
    ensures
        r == all_alpha_seq(s@),
{
    let mut i: usize = 0;
    while i < s.len()
        invariant
            i <= s.len(),
            forall|k: int| 0 <= k < i ==> is_alpha(#[trigger] s@[k]),
        decreases s.len() - i,
    {
        if !crate::text::is_alpha_char(s[i]) {
            return false;
        }
        i += 1;
    }
    true
}

/// A plain ASCII word: the input, without surrounding whitespace, is all
/// ASCII letters and as long as its non-empty key.
pub open spec fn plain_ascii_word(raw: Seq<char>, compact_key: Seq<char>) -> bool {
    let r = trim_seq(raw);
    compact_key.len() > 0 && r.len() == compact_key.len() && all_alpha_seq(r)
}

pub fn is_plain_ascii_word_input(raw: &str, compact_key: &str) -> (r: bool)
    ensures
        r == plain_ascii_word(raw@, compact_key@),
{
    let r = trim_vec(&chars_of(raw));
    let k = chars_of(compact_key);
    k.len() > 0 && r.len() == k.len() && all_alpha_exec(&r)
}

/// Typed letters only, as many as the key has, two to eight of them.
pub open spec fn pure_short_abbrev(raw: Seq<char>, compact_key: Seq<char>) -> bool {
    &&& 2 <= compact_key.len() <= 8
    &&& all_alpha_seq(raw)
    &&& raw.len() == compact_key.len()
    &&& all_alpha_seq(compact_key)
}

pub fn is_pure_short_abbrev_initial_input(raw: &str, compact_key: &str) -> (r: bool)
    ensures
        r == pure_short_abbrev(raw@, compact_key@),
{
    let r = chars_of(raw);
    let k = chars_of(compact_key);
    2 <= k.len() && k.len() <= 8 && all_alpha_exec(&r) && r.len() == k.len() && all_alpha_exec(&k)
}

/// The phrase length that a short abbreviation asks for, when some phrase
/// of `phrases` has that many characters.
pub open spec fn short_abbrev_intent(raw: Seq<char>, compact_key: Seq<char>, phrases: Seq<Seq<char>>) -> Option<
    usize,
> {
    if pure_short_abbrev(raw, compact_key) && exists|i: int|
        0 <= i < phrases.len() && (#[trigger] phrases[i]).len() == compact_key.len() {
        Some(compact_key.len() as usize)
    } else {
        None
    }
}

pub fn infer_short_abbrev_phrase_intent(raw: &str, compact_key: &str, phrases: &Vec<String>) -> (r: Option<usize>)
    ensures
        r == short_abbrev_intent(raw@, compact_key@, phrases@.map_values(|s: String| s@)),
{
    let ghost pv = phrases@.map_values(|s: String| s@);
    if !is_pure_short_abbrev_initial_input(raw, compact_key) {
        return None;
    }
    let n = chars_of(compact_key).len();
    let mut i: usize = 0;
    while i < phrases.len()
        invariant
            i <= phrases.len(),
            pv == phrases@.map_values(|s: String| s@),
            n == compact_key@.len(),
            pure_short_abbrev(raw@, compact_key@),
            forall|k: int| 0 <= k < i ==> (#[trigger] pv[k]).len() != n,
        decreases phrases.len() - i,
    {
        let count = chars_of(phrases[i].as_str()).len();
        assert(pv[i as int] == phrases@[i as int]@);
        if count == n {
            assert(pv[i as int].len() == compact_key@.len());
            return Some(n);
        }
        i += 1;
    }
    None
}

/// The input is exactly one complete syllable of the set: at least two
/// letters, nothing but letters, equal to its key.
pub open spec fn exact_single_syllable(raw: Seq<char>, compact_key: Seq<char>, syllables: Set<Seq<char>>) -> bool {
    compact_key.len() >= 2 && all_alpha_seq(raw) && raw.len() == compact_key.len() && syllables.contains(
        compact_key,
    )
}

pub fn is_exact_complete_single_syllable_input(
    raw: &str,
    compact_key: &str,
    syllable_set: &vstd::hash_set::StringHashSet,
) -> (r: bool)
    ensures
        r == exact_single_syllable(raw@, compact_key@, syllable_set@),
{
    let r = chars_of(raw);
    let k = chars_of(compact_key);
    k.len() >= 2 && all_alpha_exec(&r) && r.len() == k.len() && syllable_set.contains(compact_key)
}

/// Among the sources whose length is two to four characters, the length of
/// the one with the highest confidence, ties going to the longer one.
pub open spec fn eligible_source(s: (Option<usize>, u8)) -> bool {
    s.0 is Some && 2 <= s.0->0 <= SHORT_HOTWORD_MAX_CHARS
}

pub open spec fn source_at_least(a: (Option<usize>, u8), b: (Option<usize>, u8)) -> bool {
    a.1 > b.1 || (a.1 == b.1 && a.0->0 >= b.0->0)
}

pub fn choose_short_phrase_intent(sources: &Vec<(Option<usize>, u8)>) -> (r: Option<usize>)
    ensures
        r is None <==> forall|i: int| 0 <= i < sources@.len() ==> !eligible_source(#[trigger] sources@[i]),
        r is Some ==> exists|i: int|
            0 <= i < sources@.len() && eligible_source(#[trigger] sources@[i]) && sources@[i].0 == r && forall|
                j: int,
            | 0 <= j < sources@.len() && eligible_source(#[trigger] sources@[j]) ==> source_at_least(
                sources@[i],
                sources@[j],
            ),
{
    let mut best: Option<usize> = None;
    let mut best_i: usize = 0;
    let mut i: usize = 0;
    while i < sources.len()
        invariant
            i <= sources.len(),
            best is None <==> forall|k: int| 0 <= k < i ==> !eligible_source(#[trigger] sources@[k]),
            best is Some ==> best_i < i && eligible_source(sources@[best_i as int]) && sources@[best_i as int].0
                == best && forall|k: int|
                0 <= k < i && eligible_source(#[trigger] sources@[k]) ==> source_at_least(
                    sources@[best_i as int],
                    sources@[k],
                ),
        decreases sources.len() - i,
    {
        let (intent, confidence) = sources[i];
        match intent {
            Some(chars) => {
                if 2 <= chars && chars <= SHORT_HOTWORD_MAX_CHARS {
                    let replace = match best {
                        None => true,
                        Some(b) => {
                            let bc = sources[best_i].1;
                            confidence > bc || (confidence == bc && chars >= b)
                        },
                    };
                    if replace {
                        best = Some(chars);
                        best_i = i;
                    }
                }
            },
            None => {},
        }
        i += 1;
    }
    best
}

/// The length of `s` in UTF-8 bytes.
pub open spec fn utf8_len(s: Seq<char>) -> nat
    decreases s.len(),
{
    if s.len() == 0 {
        0
    } else {
        let c = s.last() as u32;
        utf8_len(s.drop_last()) + if c < 0x80 {
            1nat
        } else if c < 0x800 {
            2nat
        } else if c < 0x10000 {
            3nat
        } else {
            4nat
        }
    }
}

proof fn lemma_utf8_len_grows(s: Seq<char>, i: int)
    requires
        0 <= i <= s.len(),
    ensures
        utf8_len(s.take(i)) <= utf8_len(s),
    decreases s.len() - i,
{
    if i < s.len() {
        lemma_utf8_len_grows(s, i + 1);
        assert(s.take(i + 1).drop_last() =~= s.take(i));
    } else {
        assert(s.take(i) =~= s);
    }
}

/// Whether `s` is longer than `limit` bytes in UTF-8.
fn utf8_longer_than(s: &Vec<char>, limit: usize) -> (r: bool)
    requires
        limit <= 1024,
    ensures
        r == (utf8_len(s@) > limit),
{
    let mut n: usize = 0;
    let mut i: usize = 0;
    while i < s.len()
        invariant
            i <= s.len(),
            limit <= 1024,
            n == utf8_len(s@.take(i as int)),
            n <= limit,
        decreases s.len() - i,
    {
        assert(s@.take(i + 1).drop_last() =~= s@.take(i as int));
        let c = s[i] as u32;
        let w: usize = if c < 0x80 {
            1
        } else if c < 0x800 {
            2
        } else if c < 0x10000 {
            3
        } else {
            4
        };
        n = n + w;
        i += 1;
        if n > limit {
            proof {
                lemma_utf8_len_grows(s@, i as int);
            }
            return true;
        }
    }
    assert(s@.take(s.len() as int) =~= s@);
    false
}

pub open spec fn any_ctrl(s: Seq<char>) -> bool {
    exists|i: int| 0 <= i < s.len() && is_ctrl(#[trigger] s[i])
}

pub open spec fn any_alnum(s: Seq<char>) -> bool {
    exists|i: int| 0 <= i < s.len() && is_alnum(#[trigger] s[i])
}

pub open spec fn any_alpha(s: Seq<char>) -> bool {
    exists|i: int| 0 <= i < s.len() && is_alpha(#[trigger] s[i])
}

pub open spec fn all_ascii(s: Seq<char>) -> bool {
    forall|i: int| 0 <= i < s.len() ==> is_ascii_char(#[trigger] s[i])
}

pub open spec fn is_code_punct(c: char) -> bool {
    c == '(' || c == ')' || c == '[' || c == ']' || c == '{' || c == '}' || c == ';' || c == '`' || c == '"'
        || c == '$' || c == '=' || c == '+'
}

pub open spec fn any_code_punct(s: Seq<char>) -> bool {
    exists|i: int| 0 <= i < s.len() && is_code_punct(#[trigger] s[i])
}

pub open spec fn any_ws(s: Seq<char>) -> bool {
    exists|i: int| 0 <= i < s.len() && is_ws(#[trigger] s[i])
}

/// The first word of `s`: everything before its first white space.
pub open spec fn first_word(s: Seq<char>) -> Seq<char> {
    if any_ws(s) {
        let i = choose|i: int| 0 <= i < s.len() && is_ws(s[i]) && forall|k: int| 0 <= k < i ==> !is_ws(s[k]);
        s.take(i)
    } else {
        s
    }
}

/// Operators that mark code.
pub open spec fn has_code_operator(raw: Seq<char>) -> bool {
    ||| raw.contains('_')
    ||| contains_sub(raw, seq![':', ':'])
    ||| contains_sub(raw, seq!['-', '>'])
    ||| contains_sub(raw, seq!['=', '>'])
    ||| contains_sub(raw, seq!['=', '='])
    ||| contains_sub(raw, seq!['!', '='])
    ||| contains_sub(raw, seq!['<', '='])
    ||| contains_sub(raw, seq!['>', '='])
    ||| contains_sub(raw, seq!['&', '&'])
    ||| contains_sub(raw, seq!['|', '|'])
}

/// Input to keep as typed rather than convert: after removing surrounding
/// whitespace, non-empty, at most 512 bytes, without control characters,
/// with an ASCII letter or digit; and either not all ASCII, or shaped like a
/// URL, e-mail, path, option, code, identifier in camel case, or a shell
/// command with arguments.
pub open spec fn preserve_ascii(raw0: Seq<char>) -> bool {
    let raw = trim_seq(raw0);
    if raw.len() == 0 || utf8_len(raw) > 512 || any_ctrl(raw) {
        false
    } else if !any_alnum(raw) {
        false
    } else if !all_ascii(raw) {
        true
    } else {
        let lower = lower_seq(raw);
        ||| contains_sub(lower, seq![':', '/', '/'])
        ||| starts_with(lower, seq!['w', 'w', 'w', '.'])
        ||| starts_with(lower, seq!['l', 'o', 'c', 'a', 'l', 'h', 'o', 's', 't', ':'])
        ||| (lower.len() > 0 && lower[0] == '-')
        ||| (raw.contains('@') && raw.contains('.'))
        ||| raw.contains('\\')
        ||| raw.contains('/')
        ||| has_code_operator(raw)
        ||| (raw.contains('.') && any_alpha(raw))
        ||| any_code_punct(raw)
        ||| camel_or_code_case(raw)
        ||| (any_ws(raw) && is_command_word(lower_seq(first_word(raw))))
    }
}

fn any_ctrl_exec(s: &Vec<char>) -> (r: bool)
    ensures
        r == any_ctrl(s@),
{
    let mut i: usize = 0;
    while i < s.len()
        invariant
            i <= s.len(),
            forall|k: int| 0 <= k < i ==> !is_ctrl(#[trigger] s@[k]),
        decreases s.len() - i,
    {
        if crate::text::is_ctrl_char(s[i]) {
            assert(is_ctrl(s@[i as int]));
            return true;
        }
        i += 1;
    }
    false
}

fn any_alnum_exec(s: &Vec<char>) -> (r: bool)
    ensures
        r == any_alnum(s@),
{
    let mut i: usize = 0;
    while i < s.len()
        invariant
            i <= s.len(),
            forall|k: int| 0 <= k < i ==> !is_alnum(#[trigger] s@[k]),
        decreases s.len() - i,
    {
        if crate::text::is_alpha_char(s[i]) || crate::text::is_digit_char(s[i]) {
            assert(is_alnum(s@[i as int]));
            return true;
        }
        i += 1;
    }
    false
}

fn any_alpha_exec(s: &Vec<char>) -> (r: bool)
    ensures
        r == any_alpha(s@),
{
    let mut i: usize = 0;
    while i < s.len()
        invariant
            i <= s.len(),
            forall|k: int| 0 <= k < i ==> !is_alpha(#[trigger] s@[k]),
        decreases s.len() - i,
    {
        if crate::text::is_alpha_char(s[i]) {
            assert(is_alpha(s@[i as int]));
            return true;
        }
        i += 1;
    }
    false
}

fn all_ascii_exec(s: &Vec<char>) -> (r: bool)
    ensures
        r == all_ascii(s@),
{
    let mut i: usize = 0;
    while i < s.len()
        invariant
            i <= s.len(),
            forall|k: int| 0 <= k < i ==> is_ascii_char(#[trigger] s@[k]),
        decreases s.len() - i,
    {
        if s[i] > '\u{7f}' {
            assert(!is_ascii_char(s@[i as int]));
            return false;
        }
        i += 1;
    }
    true
}

fn any_code_punct_exec(s: &Vec<char>) -> (r: bool)
    ensures
        r == any_code_punct(s@),
{
    let mut i: usize = 0;
    while i < s.len()
        invariant
            i <= s.len(),
            forall|k: int| 0 <= k < i ==> !is_code_punct(#[trigger] s@[k]),
        decreases s.len() - i,
    {
        let c = s[i];
        if c == '(' || c == ')' || c == '[' || c == ']' || c == '{' || c == '}' || c == ';' || c == '`' || c
            == '"' || c == '$' || c == '=' || c == '+' {
            assert(is_code_punct(s@[i as int]));
            return true;
        }
        i += 1;
    }
    false
}

fn first_word_exec(s: &Vec<char>) -> (r: (bool, Vec<char>))
    ensures
        r.0 == any_ws(s@),
        r.1@ == first_word(s@),
{
    let mut i: usize = 0;
    while i < s.len()
        invariant
            i <= s.len(),
            forall|k: int| 0 <= k < i ==> !is_ws(#[trigger] s@[k]),
        decreases s.len() - i,
    {
        if crate::text::is_ws_char(s[i]) {
            assert(is_ws(s@[i as int]));
            let ghost j = choose|j: int| 0 <= j < s@.len() && is_ws(s@[j]) && forall|k: int| 0 <= k < j ==> !is_ws(s@[k]);
            assert(j == i as int) by {
                if j < i {
                    assert(!is_ws(s@[j]));
                } else if j > i {
                    assert(!is_ws(s@[i as int]));
                }
            }
            let w = slice_vec(s, 0, i);
            assert(w@ =~= s@.take(i as int));
            return (true, w);
        }
        i += 1;
    }
    let w = slice_vec(s, 0, s.len());
    assert(w@ =~= s@);
    (false, w)
}

fn has_code_operator_exec(raw: &Vec<char>) -> (r: bool)
    ensures
        r == has_code_operator(raw@),
{
    contains_char(raw, '_') || contains_vec(raw, &vec![':', ':']) || contains_vec(raw, &vec!['-', '>'])
        || contains_vec(raw, &vec!['=', '>']) || contains_vec(raw, &vec!['=', '=']) || contains_vec(
        raw,
        &vec!['!', '='],
    ) || contains_vec(raw, &vec!['<', '=']) || contains_vec(raw, &vec!['>', '=']) || contains_vec(
        raw,
        &vec!['&', '&'],
    ) || contains_vec(raw, &vec!['|', '|'])
}

pub fn should_preserve_ascii_input(raw: &str) -> (r: bool)
    ensures
        r == preserve_ascii(raw@),
{
    let raw = trim_vec(&chars_of(raw));
    if raw.len() == 0 || utf8_longer_than(&raw, 512) || any_ctrl_exec(&raw) {
        return false;
    }
    if !any_alnum_exec(&raw) {
        return false;
    }
    if !all_ascii_exec(&raw) {
        return true;
    }
    let lower = lower_vec(&raw);
    if contains_vec(&lower, &vec![':', '/', '/']) || starts_with_vec(&lower, &vec!['w', 'w', 'w', '.'])
        || starts_with_vec(&lower, &vec!['l', 'o', 'c', 'a', 'l', 'h', 'o', 's', 't', ':']) || (lower.len() > 0
        && lower[0] == '-') {
        return true;
    }
    if contains_char(&raw, '@') && contains_char(&raw, '.') {
        return true;
    }
    if contains_char(&raw, '\\') || contains_char(&raw, '/') {
        return true;
    }
    if has_code_operator_exec(&raw) {
        return true;
    }
    if contains_char(&raw, '.') && any_alpha_exec(&raw) {
        return true;
    }
    if any_code_punct_exec(&raw) {
        return true;
    }
    if camel_or_code_case_exec(&raw) {
        return true;
    }
    let (has_second, first) = first_word_exec(&raw);
    has_second && command_word(&lower_vec(&first))
}

/// How many ASCII capitals `s` holds.
pub open spec fn upper_count(s: Seq<char>) -> nat
    decreases s.len(),
{
    if s.len() == 0 {
        0
    } else {
        upper_count(s.drop_last()) + if is_upper(s.last()) {
            1nat
        } else {
            0nat
        }
    }
}

/// Camel case or code case: a capital right after a small letter, or a
/// small letter and at least two capitals.
pub open spec fn camel_or_code_case(s: Seq<char>) -> bool {
    ||| exists|i: int| 0 < i < s.len() && is_lower(#[trigger] s[i - 1]) && is_upper(s[i])
    ||| ((exists|i: int| 0 <= i < s.len() && is_lower(#[trigger] s[i])) && upper_count(s) >= 2)
}

fn camel_or_code_case_exec(s: &Vec<char>) -> (r: bool)
    ensures
        r == camel_or_code_case(s@),
{
    let mut has_lower = false;
    let mut uppers: usize = 0;
    let mut previous_was_lower = false;
    let mut i: usize = 0;
    while i < s.len()
        invariant
            i <= s.len(),
            uppers == upper_count(s@.take(i as int)),
            uppers <= i,
            has_lower <==> exists|k: int| 0 <= k < i && is_lower(#[trigger] s@[k]),
            previous_was_lower <==> (i > 0 && is_lower(s@[i - 1])),
            forall|k: int| 0 < k < i ==> !(is_lower(#[trigger] s@[k - 1]) && is_upper(s@[k])),
        decreases s.len() - i,
    {
        assert(s@.take(i + 1).drop_last() =~= s@.take(i as int));
        let c = s[i];
        let lower = 'a' <= c && c <= 'z';
        if 'A' <= c && c <= 'Z' {
            if previous_was_lower {
                assert(is_lower(s@[i - 1]) && is_upper(s@[i as int]));
                return true;
            }
            uppers += 1;
        }
        if lower {
            assert(is_lower(s@[i as int]));
        }
        has_lower = has_lower || lower;
        previous_was_lower = lower;
        i += 1;
    }
    assert(s@.take(s.len() as int) =~= s@);
    has_lower && uppers >= 2
}

pub fn looks_like_camel_or_code_case(raw: &str) -> (r: bool)
    ensures
        r == camel_or_code_case(raw@),
{
    camel_or_code_case_exec(&chars_of(raw))
}

/// Names of common shell commands.
pub open spec fn is_command_word(t: Seq<char>) -> bool {
    ||| t == seq!['c', 'a', 'r', 'g', 'o']
    ||| t == seq!['c', 'd']
    ||| t == seq!['c', 'm', 'd']
    ||| t == seq!['c', 'u', 'r', 'l']
    ||| t == seq!['d', 'i', 'r']
    ||| t == seq!['d', 'o', 'c', 'k', 'e', 'r']
    ||| t == seq!['g', 'i', 't']
    ||| t == seq!['g', 'o']
    ||| t == seq!['g', 'r', 'e', 'p']
    ||| t == seq!['j', 'a', 'v', 'a']
    ||| t == seq!['k', 'u', 'b', 'e', 'c', 't', 'l']
    ||| t == seq!['l', 's']
    ||| t == seq!['m', 'a', 'k', 'e']
    ||| t == seq!['n', 'o', 'd', 'e']
    ||| t == seq!['n', 'p', 'm']
    ||| t == seq!['p', 'i', 'p']
    ||| t == seq!['p', 'n', 'p', 'm']
    ||| t == seq!['p', 'o', 'w', 'e', 'r', 's', 'h', 'e', 'l', 'l']
    ||| t == seq!['p', 'y', 't', 'h', 'o', 'n']
    ||| t == seq!['r', 'g']
    ||| t == seq!['r', 'u', 's', 't', 'c']
    ||| t == seq!['s', 's', 'h']
    ||| t == seq!['s', 'u', 'd', 'o']
    ||| t == seq!['u', 'v']
    ||| t == seq!['y', 'a', 'r', 'n']
}

fn command_word(t: &Vec<char>) -> (r: bool)
    ensures
        r == is_command_word(t@),
{
    eq_vec(t, &vec!['c', 'a', 'r', 'g', 'o'])
        || eq_vec(t, &vec!['c', 'd'])
        || eq_vec(t, &vec!['c', 'm', 'd'])
        || eq_vec(t, &vec!['c', 'u', 'r', 'l'])
        || eq_vec(t, &vec!['d', 'i', 'r'])
        || eq_vec(t, &vec!['d', 'o', 'c', 'k', 'e', 'r'])
        || eq_vec(t, &vec!['g', 'i', 't'])
        || eq_vec(t, &vec!['g', 'o'])
        || eq_vec(t, &vec!['g', 'r', 'e', 'p'])
        || eq_vec(t, &vec!['j', 'a', 'v', 'a'])
        || eq_vec(t, &vec!['k', 'u', 'b', 'e', 'c', 't', 'l'])
        || eq_vec(t, &vec!['l', 's'])
        || eq_vec(t, &vec!['m', 'a', 'k', 'e'])
        || eq_vec(t, &vec!['n', 'o', 'd', 'e'])
        || eq_vec(t, &vec!['n', 'p', 'm'])
        || eq_vec(t, &vec!['p', 'i', 'p'])
        || eq_vec(t, &vec!['p', 'n', 'p', 'm'])
        || eq_vec(t, &vec!['p', 'o', 'w', 'e', 'r', 's', 'h', 'e', 'l', 'l'])
        || eq_vec(t, &vec!['p', 'y', 't', 'h', 'o', 'n'])
        || eq_vec(t, &vec!['r', 'g'])
        || eq_vec(t, &vec!['r', 'u', 's', 't', 'c'])
        || eq_vec(t, &vec!['s', 's', 'h'])
        || eq_vec(t, &vec!['s', 'u', 'd', 'o'])
        || eq_vec(t, &vec!['u', 'v'])
        || eq_vec(t, &vec!['y', 'a', 'r', 'n'])
}

pub fn is_common_command_name(token: &str) -> (r: bool)
    ensures
        r == is_command_word(lower_seq(token@)),
{
    command_word(&lower_vec(&chars_of(token)))
}

/// The shape of a key expanded from mixed full/initial input.
#[derive(Clone, Copy, Debug)]
pub struct MixedPinyinKeyExpansion {
    pub segment_count: usize,
    pub full_segments: usize,
    pub substantive_full_segments: usize,
    pub prefix_segments: usize,
    pub initial_segments: usize,
    pub leading_full: bool,
}

/// An expansion is confidently a mixed key: no prefixes and at most one
/// initial; or two full syllables; or prefixes with a substantive full
/// syllable (two prefixes, or one prefix with an initial); or four segments
/// led by a full syllable with a substantive one; or five or more segments
/// with a full syllable.
pub open spec fn high_confidence_mixed(e: MixedPinyinKeyExpansion) -> bool {
    ||| (e.prefix_segments == 0 && e.initial_segments <= 1)
    ||| e.full_segments >= 2
    ||| (e.prefix_segments >= 2 && e.substantive_full_segments >= 1)
    ||| (e.prefix_segments >= 1 && e.initial_segments >= 1 && e.substantive_full_segments >= 1)
    ||| (e.segment_count == 4 && e.leading_full && e.substantive_full_segments >= 1)
    ||| (e.segment_count >= 5 && e.full_segments >= 1)
}

pub fn is_high_confidence_mixed_key(expansion: &MixedPinyinKeyExpansion) -> (r: bool)
    ensures
        r == high_confidence_mixed(*expansion),
{
    (expansion.prefix_segments == 0 && expansion.initial_segments <= 1) || expansion.full_segments >= 2 || (
    expansion.prefix_segments >= 2 && expansion.substantive_full_segments >= 1) || (expansion.prefix_segments
        >= 1 && expansion.initial_segments >= 1 && expansion.substantive_full_segments >= 1) || (
    expansion.segment_count == 4 && expansion.leading_full && expansion.substantive_full_segments >= 1) || (
    expansion.segment_count >= 5 && expansion.full_segments >= 1)
}

/// A mixed key that asks for the mixed-prefix intent: led by a full syllable
/// or with two substantive ones, with at least one, and confident.
pub open spec fn mixed_prefix_intent(e: MixedPinyinKeyExpansion) -> bool {
    (e.leading_full || e.substantive_full_segments >= 2) && e.substantive_full_segments > 0
        && high_confidence_mixed(e)
}

pub fn is_mixed_prefix_input_intent(expansion: &MixedPinyinKeyExpansion) -> (r: bool)
    ensures
        r == mixed_prefix_intent(*expansion),
{
    (expansion.leading_full || expansion.substantive_full_segments >= 2) && expansion.substantive_full_segments
        > 0 && is_high_confidence_mixed_key(expansion)
}

/// The intent always is the first signal that applies, in order of
/// precedence.
pub proof fn lemma_intent_precedence(
    preserve: bool,
    plain: bool,
    shortcut: bool,
    english: bool,
    single: bool,
    multi: bool,
    short: Option<usize>,
    mixed: bool,
)
    ensures
        (shortcut || preserve) ==> intent_of(preserve, plain, shortcut, english, single, multi, short, mixed)
            == InputIntent::Direct,
        intent_of(preserve, plain, shortcut, english, single, multi, short, mixed) == InputIntent::English
            ==> english && plain && !single && !multi,
        !(shortcut || preserve) && single ==> intent_of(preserve, plain, shortcut, english, single, multi, short, mixed)
            == InputIntent::SingleSyllable,
        intent_of(preserve, plain, shortcut, english, single, multi, short, mixed) == InputIntent::Unknown
            <==> (!shortcut && !preserve && !(english && plain) && !single && !multi && !mixed && short is None),
{
}

} // verus!
