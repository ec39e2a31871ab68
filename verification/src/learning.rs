//! Which committed phrases the user dictionary may learn, and how strongly.
use vstd::prelude::*;
use crate::text::{
    chars_of, contains_char, lower_char, lower_of, string_of, contains_sub, contains_vec, count_non_ws, count_non_ws_vec, find_char,
    is_alpha, is_alpha_char, is_ctrl, is_ctrl_char, is_digit, is_digit_char, lower_seq, lower_vec,
    non_ws, non_ws_vec, slice_vec, starts_with, starts_with_vec, trim_seq, trim_vec,
};

verus! {

/// CJK unified ideographs, the blocks that count as Chinese text.
pub open spec fn is_cjk(c: char) -> bool {
    let u = c as u32;
    ||| (0x3400 <= u && u <= 0x4DBF)
    ||| (0x4E00 <= u && u <= 0x9FFF)
    ||| (0xF900 <= u && u <= 0xFAFF)
    ||| (0x20000 <= u && u <= 0x2A6DF)
    ||| (0x2A700 <= u && u <= 0x2B73F)
    ||| (0x2B740 <= u && u <= 0x2B81F)
    ||| (0x2B820 <= u && u <= 0x2CEAF)
    ||| (0x30000 <= u && u <= 0x3134F)
}

pub fn is_cjk_unified(ch: char) -> (r: bool)
    ensures
        r == is_cjk(ch),
{
    let u = ch as u32;
    (0x3400 <= u && u <= 0x4DBF) || (0x4E00 <= u && u <= 0x9FFF) || (0xF900 <= u && u <= 0xFAFF)
        || (0x20000 <= u && u <= 0x2A6DF) || (0x2A700 <= u && u <= 0x2B73F) || (0x2B740 <= u && u
        <= 0x2B81F) || (0x2B820 <= u && u <= 0x2CEAF) || (0x30000 <= u && u <= 0x3134F)
}

/// Number of characters of a phrase, white space not counted.
pub fn phrase_char_count(phrase: &str) -> (r: usize)
    ensures
        r == count_non_ws(phrase@),
{
    let v = chars_of(phrase);
    count_non_ws_vec(&v)
}

/// `text` holds an `@` after its first character, and a `.` somewhere after
/// the first `@`.
pub open spec fn email_like(s: Seq<char>) -> bool {
    exists|i: int|
        0 < i < s.len() && s[i] == '@' && (forall|k: int| 0 <= k < i ==> s[k] != '@') && s.skip(
            i + 1,
        ).contains('.')
}

pub fn looks_like_email(text: &str) -> (r: bool)
    ensures
        r == email_like(text@),
{
    let s = chars_of(text);
    looks_like_email_chars(&s)
}

fn looks_like_email_chars(s: &Vec<char>) -> (r: bool)
    ensures
        r == email_like(s@),
{
    match find_char(s, '@') {
        None => false,
        Some(at) => {
            if at == 0 {
                return false;
            }
            let rest = slice_vec(s, at + 1, s.len());
            assert(rest@ =~= s@.skip(at + 1));
            contains_char(&rest, '.')
        },
    }
}

/// A UNC path, a drive path, any back slash, or a slash with a dot.
pub open spec fn path_like(s: Seq<char>) -> bool {
    let lower = lower_seq(s);
    ||| starts_with(lower, seq!['\\', '\\'])
    ||| (lower.len() >= 3 && is_alpha(lower[0]) && lower[1] == ':' && lower[2] == '\\')
    ||| lower.contains('\\')
    ||| (lower.contains('/') && lower.contains('.'))
}

pub fn looks_like_windows_or_url_path(text: &str) -> (r: bool)
    ensures
        r == path_like(text@),
{
    let s = chars_of(text);
    looks_like_path_chars(&s)
}

fn looks_like_path_chars(s: &Vec<char>) -> (r: bool)
    ensures
        r == path_like(s@),
{
    let lower = lower_vec(s);
    let unc: Vec<char> = vec!['\\', '\\'];
    if starts_with_vec(&lower, &unc) {
        return true;
    }
    if lower.len() >= 3 && is_alpha_char(lower[0]) && lower[1] == ':' && lower[2] == '\\' {
        return true;
    }
    contains_char(&lower, '\\') || (contains_char(&lower, '/') && contains_char(&lower, '.'))
}

/// Eighteen non-blank characters: seventeen digits, then a digit or `x`.
pub open spec fn mainland_id_like(s: Seq<char>) -> bool {
    let c = non_ws(s);
    &&& c.len() == 18
    &&& forall|k: int| 0 <= k < 17 ==> is_digit(#[trigger] c[k])
    &&& (is_digit(c[17]) || c[17] == 'x' || c[17] == 'X')
}

pub fn looks_like_mainland_id(text: &str) -> (r: bool)
    ensures
        r == mainland_id_like(text@),
{
    let s = chars_of(text);
    mainland_id_chars(&s)
}

fn mainland_id_chars(s: &Vec<char>) -> (r: bool)
    ensures
        r == mainland_id_like(s@),
{
    let c = non_ws_vec(s);
    if c.len() != 18 {
        return false;
    }
    let mut i: usize = 0;
    while i < 17
        invariant
            c@ == non_ws(s@),
            c.len() == 18,
            i <= 17,
            forall|k: int| 0 <= k < i ==> is_digit(#[trigger] c@[k]),
        decreases 17 - i,
    {
        if !is_digit_char(c[i]) {
            assert(!is_digit(c@[i as int]));
            return false;
        }
        i += 1;
    }
    is_digit_char(c[17]) || c[17] == 'x' || c[17] == 'X'
}

/// Number of ASCII digits in `s`.
pub open spec fn digit_count(s: Seq<char>) -> nat {
    s.filter(|c: char| is_digit(c)).len()
}

fn digit_count_vec(s: &Vec<char>) -> (r: usize)
    ensures
        r == digit_count(s@),
{
    let mut n: usize = 0;
    let mut i: usize = 0;
    while i < s.len()
        invariant
            i <= s.len(),
            n == digit_count(s@.take(i as int)),
            n <= i,
        decreases s.len() - i,
    {
        proof {
            let p = |c: char| is_digit(c);
            assert(s@.take(i + 1) =~= s@.take(i as int).push(s@[i as int]));
            s@.take(i as int).lemma_filter_push(s@[i as int], p);
        }
        if is_digit_char(s[i]) {
            n += 1;
        }
        i += 1;
    }
    assert(s@.take(s.len() as int) =~= s@);
    n
}

/// Text that looks like a URL, an address, a path, an identity number or a
/// long number, after trimming.
pub open spec fn sensitive_like(s: Seq<char>) -> bool {
    let t = trim_seq(s);
    let lower = lower_seq(t);
    ||| contains_sub(lower, seq![':', '/', '/'])
    ||| starts_with(lower, seq!['w', 'w', 'w', '.'])
    ||| email_like(t)
    ||| path_like(t)
    ||| digit_count(t) >= 8
    ||| mainland_id_like(t)
}

pub fn looks_like_sensitive_user_phrase(phrase: &str) -> (r: bool)
    ensures
        r == sensitive_like(phrase@),
{
    let s = chars_of(phrase);
    sensitive_chars(&s)
}

fn sensitive_chars(s: &Vec<char>) -> (r: bool)
    ensures
        r == sensitive_like(s@),
{
    let t = trim_vec(s);
    let lower = lower_vec(&t);
    let scheme: Vec<char> = vec![':', '/', '/'];
    let www: Vec<char> = vec!['w', 'w', 'w', '.'];
    if contains_vec(&lower, &scheme) || starts_with_vec(&lower, &www) {
        return true;
    }
    if looks_like_email_chars(&t) || looks_like_path_chars(&t) {
        return true;
    }
    let digits = digit_count_vec(&t);
    if digits >= 11 {
        return true;
    }
    if mainland_id_chars(&t) {
        return true;
    }
    digits >= 8
}

/// A multi-character phrase worth learning: two to 128 visible characters,
/// nothing sensitive, no control characters, and some Chinese text.
pub open spec fn learnable_phrase(s: Seq<char>) -> bool {
    &&& 2 <= count_non_ws(s) <= 128
    &&& !sensitive_like(s)
    &&& forall|k: int| 0 <= k < s.len() ==> !is_ctrl(#[trigger] s[k])
    &&& exists|k: int| 0 <= k < s.len() && is_cjk(#[trigger] s[k])
}

/// Where the Chinese character stands does not matter: a phrase of two to
/// 128 visible characters, with no control character and nothing
/// sensitive, is learnable as soon as any one of its characters (first,
/// last or in between) is a CJK ideograph, and only then.
pub proof fn lemma_learnable_with_cjk_anywhere(s: Seq<char>, k: int)
    requires
        2 <= count_non_ws(s) <= 128,
        !sensitive_like(s),
        forall|j: int| 0 <= j < s.len() ==> !is_ctrl(#[trigger] s[j]),
    ensures
        0 <= k < s.len() && is_cjk(s[k]) ==> learnable_phrase(s),
        learnable_phrase(s) <==> exists|j: int| 0 <= j < s.len() && #[trigger] is_cjk(s[j]),
{
}

pub fn is_learnable_user_phrase(phrase: &str) -> (r: bool)
    ensures
        r == learnable_phrase(phrase@),
{
    let s = chars_of(phrase);
    learnable_chars(&s)
}

pub(crate) fn learnable_chars(s: &Vec<char>) -> (r: bool)
    ensures
        r == learnable_phrase(s@),
{
    let count = count_non_ws_vec(s);
    if !(2 <= count && count <= 128) {
        return false;
    }
    if sensitive_chars(s) {
        return false;
    }
    let mut has_cjk = false;
    let mut i: usize = 0;
    while i < s.len()
        invariant
            i <= s.len(),
            forall|k: int| 0 <= k < i ==> !is_ctrl(#[trigger] s@[k]),
            has_cjk == exists|k: int| 0 <= k < i && is_cjk(#[trigger] s@[k]),
        decreases s.len() - i,
    {
        if is_ctrl_char(s[i]) {
            return false;
        }
        if is_cjk_unified(s[i]) {
            has_cjk = true;
        }
        i += 1;
    }
    has_cjk
}

/// Exactly one visible character, which is a Chinese character, and nothing
/// sensitive.
pub open spec fn learnable_single_char(s: Seq<char>) -> bool {
    &&& !sensitive_like(s)
    &&& non_ws(s).len() == 1
    &&& !is_ctrl(non_ws(s)[0])
    &&& is_cjk(non_ws(s)[0])
}

pub fn is_learnable_single_user_char(phrase: &str) -> (r: bool)
    ensures
        r == learnable_single_char(phrase@),
{
    let s = chars_of(phrase);
    learnable_single_chars(&s)
}

pub(crate) fn learnable_single_chars(s: &Vec<char>) -> (r: bool)
    ensures
        r == learnable_single_char(s@),
{
    if sensitive_chars(s) {
        return false;
    }
    let c = non_ws_vec(s);
    if c.len() != 1 {
        return false;
    }
    !is_ctrl_char(c[0]) && is_cjk_unified(c[0])
}

/// The key that `mask` selects from `syls[..n]`: syllable `i` is written out
/// when bit `i` of `mask` is set, else abbreviated to its lower-cased
/// initial, which must be an ASCII letter.
pub open spec fn mixed_key_upto(syls: Seq<Seq<char>>, mask: usize, n: int) -> Option<Seq<char>>
    decreases n,
{
    if n <= 0 {
        Some(Seq::empty())
    } else {
        match mixed_key_upto(syls, mask, n - 1) {
            None => None,
            Some(k) => {
                let syl = syls[n - 1];
                if mask & (1usize << ((n - 1) as usize)) != 0 {
                    Some(k + syl)
                } else if syl.len() > 0 && is_alpha(syl[0]) {
                    Some(k.push(lower_char(syl[0])))
                } else {
                    None
                }
            },
        }
    }
}

/// The mixed keys of masks `1 .. upto`, in mask order, each once, and no more
/// than `limit` of them.
pub open spec fn mixed_keys_scan(syls: Seq<Seq<char>>, upto: int, limit: int) -> Seq<Seq<char>>
    decreases upto,
{
    if upto <= 1 {
        Seq::empty()
    } else {
        let prev = mixed_keys_scan(syls, upto - 1, limit);
        if prev.len() >= limit {
            prev
        } else {
            match mixed_key_upto(syls, (upto - 1) as usize, syls.len() as int) {
                Some(k) => if k.len() > 0 && !prev.contains(k) {
                    prev.push(k)
                } else {
                    prev
                },
                None => prev,
            }
        }
    }
}

/// Every key that writes some syllables of a two- to six-syllable reading
/// out in full and abbreviates the others (not all written out, not all
/// abbreviated), in mask order, at most `limit` of them.
pub open spec fn mixed_keys_spec(syls: Seq<Seq<char>>, limit: int) -> Seq<Seq<char>> {
    if !(2 <= syls.len() <= 6) || limit == 0 {
        Seq::empty()
    } else {
        mixed_keys_scan(syls, ((1usize << (syls.len() as usize)) - 1) as int, limit)
    }
}

proof fn lemma_mixed_scan_len(syls: Seq<Seq<char>>, upto: int, limit: int)
    requires
        limit >= 0,
    ensures
        mixed_keys_scan(syls, upto, limit).len() <= limit,
    decreases upto,
{
    if upto > 1 {
        lemma_mixed_scan_len(syls, upto - 1, limit);
    }
}

fn mixed_key_for_mask(syls: &Vec<String>, mask: usize) -> (r: Option<Vec<char>>)
    requires
        syls.len() <= 6,
    ensures
        match r {
            Some(k) => mixed_key_upto(crate::dict::strings_view(syls@), mask, syls.len() as int) == Some(k@),
            None => mixed_key_upto(crate::dict::strings_view(syls@), mask, syls.len() as int) is None,
        },
{
    let ghost sv = crate::dict::strings_view(syls@);
    let mut key: Vec<char> = Vec::new();
    let mut idx: usize = 0;
    while idx < syls.len()
        invariant
            idx <= syls.len() <= 6,
            sv == crate::dict::strings_view(syls@),
            mixed_key_upto(sv, mask, idx as int) == Some(key@),
        decreases syls.len() - idx,
    {
        let syl = chars_of(syls[idx].as_str());
        assert(sv[idx as int] == syl@);
        let bit: usize = 1usize << idx;
        if mask & bit != 0 {
            let ghost before = key@;
            let mut j: usize = 0;
            while j < syl.len()
                invariant
                    j <= syl.len(),
                    key@ == before + syl@.take(j as int),
                decreases syl.len() - j,
            {
                key.push(syl[j]);
                assert(syl@.take(j + 1) =~= syl@.take(j as int).push(syl@[j as int]));
                j += 1;
            }
            assert(syl@.take(syl.len() as int) =~= syl@);
        } else if syl.len() > 0 && is_alpha_char(syl[0]) {
            key.push(lower_of(syl[0]));
        } else {
            proof {
                lemma_mixed_key_none(sv, mask, idx + 1, syls.len() as int);
            }
            return None;
        }
        idx += 1;
    }
    Some(key)
}

proof fn lemma_mixed_key_none(syls: Seq<Seq<char>>, mask: usize, n: int, m: int)
    requires
        0 < n <= m,
        mixed_key_upto(syls, mask, n) is None,
    ensures
        mixed_key_upto(syls, mask, m) is None,
    decreases m - n,
{
    if n < m {
        lemma_mixed_key_none(syls, mask, n, m - 1);
    }
}

/// The mixed full/initial keys of a reading split into syllables.
pub fn mixed_pinyin_keys_from_syllables(syllables: &Vec<String>, limit: usize) -> (r: Vec<String>)
    ensures
        crate::dict::strings_view(r@) == mixed_keys_spec(crate::dict::strings_view(syllables@), limit as int),
        r@.len() <= limit,
{
    let ghost sv = crate::dict::strings_view(syllables@);
    let len = syllables.len();
    let mut out: Vec<String> = Vec::new();
    if !(2 <= len && len <= 6) || limit == 0 {
        return out;
    }
    assert(1usize << len >= 4 && 1usize << len <= 64) by (bit_vector)
        requires
            2 <= len <= 6,
    ;
    let all_full_mask: usize = (1usize << len) - 1;
    let mut mask: usize = 1;
    while mask < all_full_mask
        invariant
            2 <= len <= 6,
            len == syllables.len(),
            sv == crate::dict::strings_view(syllables@),
            all_full_mask == (1usize << (len as usize)) - 1,
            1 <= mask <= all_full_mask,
            crate::dict::strings_view(out@) == mixed_keys_scan(sv, mask as int, limit as int),
            out@.len() < limit,
        decreases all_full_mask - mask,
    {
        let key = mixed_key_for_mask(syllables, mask);
        let ghost prev = crate::dict::strings_view(out@);
        match key {
            Some(k) => {
                let ks = string_of(&k);
                if k.len() > 0 && !crate::dict::contains_string(&out, &ks) {
                    out.push(ks);
                    assert(crate::dict::strings_view(out@) =~= prev.push(k@));
                    if out.len() >= limit {
                        assert(crate::dict::strings_view(out@) == mixed_keys_scan(sv, mask + 1, limit as int));
                        proof {
                            lemma_mixed_scan_stays(sv, (mask + 1) as int, all_full_mask as int, limit as int);
                        }
                        return out;
                    }
                }
            },
            None => {},
        }
        mask += 1;
    }
    out
}

proof fn lemma_mixed_scan_stays(syls: Seq<Seq<char>>, from: int, to: int, limit: int)
    requires
        from <= to,
        mixed_keys_scan(syls, from, limit).len() >= limit,
    ensures
        mixed_keys_scan(syls, to, limit) == mixed_keys_scan(syls, from, limit),
    decreases to - from,
{
    if from < to {
        lemma_mixed_scan_stays(syls, from, to - 1, limit);
    }
}

} // verus!
