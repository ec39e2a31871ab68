//! Candidates that must keep their exact text when the output is converted
//! to traditional characters: e-mail addresses, paths, URLs, code, and
//! candidates whose description asks for it.
use vstd::prelude::*;
use crate::text::{
    chars_of, contains_char, contains_sub, contains_vec, eq_vec, is_alpha, is_ws, lower_seq, lower_vec, split_once,
    split_once_vec, split_seq, split_vec, starts_with, starts_with_vec, trim_seq, trim_vec,
};

verus! {

/// `local@domain` with a non-empty local part and a dotted domain that
/// neither starts nor ends with a dot and holds no white space.
pub open spec fn email_literal(text: Seq<char>) -> bool {
    match split_once(trim_seq(text), '@') {
        None => false,
        Some(parts) => {
            let domain = parts.1;
            &&& parts.0.len() > 0
            &&& domain.contains('.')
            &&& !(domain.len() > 0 && domain[0] == '.')
            &&& !(domain.len() > 0 && domain.last() == '.')
            &&& !(exists|i: int| 0 <= i < domain.len() && is_ws(#[trigger] domain[i]))
        },
    }
}

fn any_ws_vec(s: &Vec<char>) -> (r: bool)
    ensures
        r == exists|i: int| 0 <= i < s@.len() && is_ws(#[trigger] s@[i]),
{
    let mut i: usize = 0;
    while i < s.len()
        invariant
            i <= s.len(),
            forall|k: int| 0 <= k < i ==> !is_ws(#[trigger] s@[k]),
        decreases s.len() - i,
    {
        if crate::text::is_ws_char(s[i]) {
            assert(is_ws(s@[i as int]));
            return true;
        }
        i += 1;
    }
    false
}

pub fn looks_like_email_literal(text: &str) -> (r: bool)
    ensures
        r == email_literal(text@),
{
    let t = trim_vec(&chars_of(text));
    match split_once_vec(&t, '@') {
        None => false,
        Some((local, domain)) => {
            local.len() > 0 && contains_char(&domain, '.') && !(domain.len() > 0 && domain[0] == '.') && !(
            domain.len() > 0 && domain[domain.len() - 1] == '.') && !any_ws_vec(&domain)
        },
    }
}

/// A network share, a home-relative path, a drive path, or text with a
/// backslash and a colon or dot.
pub open spec fn path_literal(text: Seq<char>) -> bool {
    let t = trim_seq(text);
    ||| starts_with(t, seq!['\\', '\\'])
    ||| starts_with(t, seq!['~', '/'])
    ||| starts_with(t, seq!['~', '\\'])
    ||| (t.len() >= 3 && is_alpha(t[0]) && t[1] == ':' && (t[2] == '\\' || t[2] == '/'))
    ||| (t.contains('\\') && (t.contains(':') || t.contains('.')))
}

pub fn looks_like_path_literal(text: &str) -> (r: bool)
    ensures
        r == path_literal(text@),
{
    let t = trim_vec(&chars_of(text));
    let a: Vec<char> = vec!['\\', '\\'];
    let b: Vec<char> = vec!['~', '/'];
    let c: Vec<char> = vec!['~', '\\'];
    assert(a@ =~= seq!['\\', '\\']);
    assert(b@ =~= seq!['~', '/']);
    assert(c@ =~= seq!['~', '\\']);
    starts_with_vec(&t, &a) || starts_with_vec(&t, &b) || starts_with_vec(&t, &c) || (t.len() >= 3
        && crate::text::is_alpha_char(t[0]) && t[1] == ':' && (t[2] == '\\' || t[2] == '/')) || (contains_char(
        &t,
        '\\',
    ) && (contains_char(&t, ':') || contains_char(&t, '.')))
}

/// A fenced code block, or a bracketed URL.
pub open spec fn code_literal(text: Seq<char>) -> bool {
    let t = trim_seq(text);
    ||| starts_with(t, seq!['`', '`', '`'])
    ||| contains_sub(t, seq!['\n', '`', '`', '`'])
    ||| (contains_sub(t, seq![':', '/', '/']) && t.contains('[') && t.contains(']'))
}

pub fn looks_like_code_literal(text: &str) -> (r: bool)
    ensures
        r == code_literal(text@),
{
    let t = trim_vec(&chars_of(text));
    starts_with_vec(&t, &vec!['`', '`', '`']) || contains_vec(&t, &vec!['\n', '`', '`', '`']) || (contains_vec(
        &t,
        &vec![':', '/', '/'],
    ) && contains_char(&t, '[') && contains_char(&t, ']'))
}

/// A URL, an e-mail address, a path, or code.
pub open spec fn literal_candidate(text: Seq<char>) -> bool {
    let lower = lower_seq(text);
    ||| starts_with(lower, "clipboard://"@)
    ||| starts_with(lower, "mailto:"@)
    ||| contains_sub(lower, seq![':', '/', '/'])
    ||| starts_with(lower, seq!['w', 'w', 'w', '.'])
    ||| email_literal(text)
    ||| path_literal(text)
    ||| code_literal(text)
}

pub fn looks_like_literal_candidate_that_should_not_be_converted(text: &str) -> (r: bool)
    ensures
        r == literal_candidate(text@),
{
    let lower = lower_vec(&chars_of(text));
    starts_with_vec(&lower, &chars_of("clipboard://")) || starts_with_vec(&lower, &chars_of("mailto:"))
        || contains_vec(&lower, &vec![':', '/', '/']) || starts_with_vec(&lower, &vec!['w', 'w', 'w', '.'])
        || looks_like_email_literal(text) || looks_like_path_literal(text) || looks_like_code_literal(text)
}

/// Description tokens that keep a candidate's text as it is.
pub open spec fn keep_token(t: Seq<char>) -> bool {
    ||| t == "traditional=keep"@
    ||| t == "traditional_keep=1"@
    ||| t == "no_traditional=1"@
    ||| t == "clipboard_quick=1"@
    ||| t == "clipboard_quick"@
    ||| t == "直输"@
    ||| t == "英文"@
    ||| t == "功能键"@
}

/// Some tab-separated token of the description, without surrounding
/// whitespace, asks to keep the text.
pub open spec fn meta_keeps_text(meta: Seq<char>) -> bool {
    exists|i: int| 0 <= i < split_seq(meta, '\t').len() && keep_token(trim_seq(#[trigger] split_seq(meta, '\t')[i]))
}

fn is_keep_token(t: &Vec<char>) -> (r: bool)
    ensures
        r == keep_token(t@),
{
    eq_vec(t, &chars_of("traditional=keep")) || eq_vec(t, &chars_of("traditional_keep=1")) || eq_vec(
        t,
        &chars_of("no_traditional=1"),
    ) || eq_vec(t, &chars_of("clipboard_quick=1")) || eq_vec(t, &chars_of("clipboard_quick")) || eq_vec(
        t,
        &chars_of("直输"),
    ) || eq_vec(t, &chars_of("英文")) || eq_vec(t, &chars_of("功能键"))
}

pub fn candidate_meta_requests_traditional_keep(meta: &str) -> (r: bool)
    ensures
        r == meta_keeps_text(meta@),
{
    let parts = split_vec(&chars_of(meta), '\t');
    let ghost ps = parts@.map_values(|v: Vec<char>| v@);
    let mut i: usize = 0;
    while i < parts.len()
        invariant
            i <= parts.len(),
            ps == parts@.map_values(|v: Vec<char>| v@),
            ps == split_seq(meta@, '\t'),
            forall|k: int| 0 <= k < i ==> !keep_token(trim_seq(#[trigger] ps[k])),
        decreases parts.len() - i,
    {
        assert(ps[i as int] == parts@[i as int]@);
        if is_keep_token(&trim_vec(&parts[i])) {
            return true;
        }
        i += 1;
    }
    false
}

/// A candidate is converted to traditional characters unless its text is
/// blank, its description asks to keep it, or it is a literal.
pub open spec fn convert_to_traditional(phrase: Seq<char>, meta: Option<Seq<char>>) -> bool {
    let t = trim_seq(phrase);
    t.len() > 0 && !(meta matches Some(m) && meta_keeps_text(m)) && !literal_candidate(t)
}

pub fn should_convert_candidate_to_traditional(phrase: &str, display_meta: Option<&str>) -> (r: bool)
    ensures
        r == convert_to_traditional(phrase@, match display_meta {
            Some(m) => Some(m@),
            None => None,
        }),
{
    let t = trim_vec(&chars_of(phrase));
    if t.len() == 0 {
        return false;
    }
    match display_meta {
        Some(m) => {
            if candidate_meta_requests_traditional_keep(m) {
                return false;
            }
        },
        None => {},
    }
    let ts = crate::text::string_of(&t);
    !looks_like_literal_candidate_that_should_not_be_converted(ts.as_str())
}

} // verus!
