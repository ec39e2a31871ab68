//! What the lookup reads of the ways an input splits into syllables: the
//! phrase length that a complete split asks for, the phrase key of an
//! input typed with explicit separators, and the label of a corrected
//! reading.
use vstd::prelude::*;
use crate::engine::{compact_key, compact_lookup_key};
use crate::intent::SHORT_HOTWORD_MAX_CHARS;
use crate::text::{chars_of, is_ws, is_ws_char, push_char};

verus! {

/// Where a split of the input comes from.
#[derive(Clone, Copy, Debug, PartialEq, Eq, Structural)]
pub enum ParseVariantSource {
    /// The input read as typed.
    Exact,
    /// The typed letters split at other syllable boundaries.
    AlternateSplit,
    /// The input with a neighbouring key corrected.
    KeyboardTypo,
    /// The input with a confusable syllable replaced.
    SyllableConfusion,
    /// The input with a phonetic misspelling corrected.
    PhoneticTypo,
}

/// One way the input splits into syllables: the complete syllables, an
/// incomplete tail if any, where the split comes from, and for a
/// correction the corrected input.
#[derive(Clone, Debug)]
pub struct ParseVariant {
    pub syllables: Vec<String>,
    pub tail: Option<String>,
    pub source: ParseVariantSource,
    pub corrected_input: Option<String>,
}

/// The split is complete (no tail) and has two to four syllables.
pub open spec fn complete_short(v: ParseVariant) -> bool {
    v.tail is None && 2 <= v.syllables@.len() <= SHORT_HOTWORD_MAX_CHARS
}

/// The first split from `source` that is complete and short, from `i` on.
pub open spec fn first_complete_short_from(vs: Seq<ParseVariant>, source: ParseVariantSource, i: int) -> Option<int>
    decreases vs.len() - i,
{
    if i < 0 || i >= vs.len() {
        None
    } else if vs[i].source == source && complete_short(vs[i]) {
        Some(i)
    } else {
        first_complete_short_from(vs, source, i + 1)
    }
}

/// The phrase length that a complete short split asks for: that of the
/// first exact one, else of the first alternate split.
pub open spec fn exact_complete_short_intent(vs: Seq<ParseVariant>) -> Option<usize> {
    match first_complete_short_from(vs, ParseVariantSource::Exact, 0) {
        Some(i) => Some(vs[i].syllables@.len() as usize),
        None => match first_complete_short_from(vs, ParseVariantSource::AlternateSplit, 0) {
            Some(i) => Some(vs[i].syllables@.len() as usize),
            None => None,
        },
    }
}

fn first_complete_short(variants: &Vec<ParseVariant>, source: ParseVariantSource) -> (r: Option<usize>)
    ensures
        match r {
            Some(i) => first_complete_short_from(variants@, source, 0) == Some(i as int) && i < variants.len(),
            None => first_complete_short_from(variants@, source, 0) is None,
        },
{
    let mut i: usize = 0;
    while i < variants.len()
        invariant
            i <= variants.len(),
            first_complete_short_from(variants@, source, i as int) == first_complete_short_from(variants@, source, 0),
        decreases variants.len() - i,
    {
        let v = &variants[i];
        let n = v.syllables.len();
        if v.source == source && v.tail.is_none() && 2 <= n && n <= SHORT_HOTWORD_MAX_CHARS {
            return Some(i);
        }
        i += 1;
    }
    None
}

/// The phrase length that the input's complete split asks for, from the
/// first exact split of two to four syllables without a tail, else the
/// first alternate split of that kind.
pub fn infer_exact_complete_short_parse_intent(variants: &Vec<ParseVariant>) -> (r: Option<usize>)
    ensures
        r == exact_complete_short_intent(variants@),
{
    match first_complete_short(variants, ParseVariantSource::Exact) {
        Some(i) => Some(variants[i].syllables.len()),
        None => match first_complete_short(variants, ParseVariantSource::AlternateSplit) {
            Some(i) => Some(variants[i].syllables.len()),
            None => None,
        },
    }
}

/// A character that separates syllables when typed: white space, an
/// apostrophe (straight, curly or modifier) or a hyphen, dash or
/// underscore.
pub open spec fn is_separator(c: char) -> bool {
    ||| is_ws(c)
    ||| c == '\''
    ||| c == '\u{2019}'
    ||| c == '\u{2018}'
    ||| c == '\u{02BC}'
    ||| c == '-'
    ||| c == '_'
    ||| c == '\u{2010}'
    ||| c == '\u{2011}'
    ||| c == '\u{2013}'
    ||| c == '\u{2014}'
}

/// The syllables written one after the other.
pub open spec fn joined(syllables: Seq<Seq<char>>) -> Seq<char>
    decreases syllables.len(),
{
    if syllables.len() == 0 {
        Seq::empty()
    } else {
        joined(syllables.drop_last()) + syllables.last()
    }
}

pub open spec fn syllables_view(v: ParseVariant) -> Seq<Seq<char>> {
    v.syllables@.map_values(|s: String| s@)
}

/// The first split without a tail and with two or more syllables, from `i` on.
pub open spec fn first_multi_complete_from(vs: Seq<ParseVariant>, i: int) -> Option<int>
    decreases vs.len() - i,
{
    if i < 0 || i >= vs.len() {
        None
    } else if vs[i].tail is None && vs[i].syllables@.len() >= 2 {
        Some(i)
    } else {
        first_multi_complete_from(vs, i + 1)
    }
}

/// For input typed with a separator, the phrase key of the first complete
/// split of two or more syllables, and its syllable count.
pub open spec fn explicit_separator_key(raw: Seq<char>, vs: Seq<ParseVariant>) -> Option<(Seq<char>, usize)> {
    if !(exists|i: int| 0 <= i < raw.len() && is_separator(#[trigger] raw[i])) {
        None
    } else {
        match first_multi_complete_from(vs, 0) {
            Some(i) => Some((joined(syllables_view(vs[i])), vs[i].syllables@.len() as usize)),
            None => None,
        }
    }
}

fn is_separator_char(c: char) -> (r: bool)
    ensures
        r == is_separator(c),
{
    is_ws_char(c) || c == '\'' || c == '\u{2019}' || c == '\u{2018}' || c == '\u{02BC}' || c == '-' || c == '_'
        || c == '\u{2010}' || c == '\u{2011}' || c == '\u{2013}' || c == '\u{2014}'
}

fn push_str(out: &mut String, s: &str)
    ensures
        final(out)@ == old(out)@ + s@,
{
    let v = chars_of(s);
    let mut i: usize = 0;
    while i < v.len()
        invariant
            i <= v.len(),
            v@ == s@,
            out@ == old(out)@ + s@.take(i as int),
        decreases v.len() - i,
    {
        push_char(out, v[i]);
        i += 1;
        assert(out@ =~= old(out)@ + s@.take(i as int));
    }
    assert(s@.take(v.len() as int) =~= s@);
}

/// The phrase key of input typed with explicit syllable separators: the
/// syllables of the first split without a tail that has two or more, with
/// their count. `None` when the input has no separator or no such split.
pub fn explicit_separator_phrase_key_from_variants(raw: &str, variants: &Vec<ParseVariant>) -> (r: Option<(String, usize)>)
    ensures
        match r {
            Some((key, count)) => explicit_separator_key(raw@, variants@) == Some((key@, count)),
            None => explicit_separator_key(raw@, variants@) is None,
        },
{
    let chars = chars_of(raw);
    let mut has_separator = false;
    let mut k: usize = 0;
    while k < chars.len()
        invariant
            k <= chars.len(),
            chars@ == raw@,
            has_separator == exists|i: int| 0 <= i < k && is_separator(#[trigger] raw@[i]),
        decreases chars.len() - k,
    {
        if is_separator_char(chars[k]) {
            has_separator = true;
        }
        k += 1;
    }
    if !has_separator {
        return None;
    }
    let mut i: usize = 0;
    while i < variants.len()
        invariant
            i <= variants.len(),
            first_multi_complete_from(variants@, i as int) == first_multi_complete_from(variants@, 0),
            exists|x: int| 0 <= x < raw@.len() && is_separator(#[trigger] raw@[x]),
        decreases variants.len() - i,
    {
        if variants[i].tail.is_none() && variants[i].syllables.len() >= 2 {
            let syl = &variants[i].syllables;
            let ghost sv = syl@.map_values(|s: String| s@);
            let mut key = String::new();
            let mut j: usize = 0;
            assert(first_multi_complete_from(variants@, 0) == Some(i as int));
            assert(sv == syllables_view(variants@[i as int]));
            while j < syl.len()
                invariant
                    j <= syl.len(),
                    i < variants.len(),
                    first_multi_complete_from(variants@, 0) == Some(i as int),
                    sv == syllables_view(variants@[i as int]),
                    syl@.len() == variants@[i as int].syllables@.len(),
                    exists|x: int| 0 <= x < raw@.len() && is_separator(#[trigger] raw@[x]),
                    sv == syl@.map_values(|s: String| s@),
                    key@ == joined(sv.take(j as int)),
                decreases syl.len() - j,
            {
                assert(sv.take(j + 1).drop_last() =~= sv.take(j as int));
                push_str(&mut key, syl[j].as_str());
                j += 1;
            }
            assert(sv.take(syl.len() as int) =~= sv);
            return Some((key, syl.len()));
        }
        i += 1;
    }
    None
}

/// The label of a reading that a split corrected: the kind of correction,
/// the input and the corrected reading, then tab-separated `typo=1`, the
/// correction kind and the corrected reading. `None` for a split that is no
/// correction or whose corrected reading is the input's own key.
pub open spec fn correction_label(raw: Seq<char>, v: ParseVariant) -> Option<Seq<char>> {
    match v.corrected_input {
        None => None,
        Some(c) => if c@ == compact_key(raw) {
            None
        } else {
            match v.source {
                ParseVariantSource::KeyboardTypo => Some(
                    "\u{7ea0}\u{9519}: "@ + raw + "->"@ + c@ + "\ttypo=1\tcorrection=keyboard\tcorrected_reading="@ + c@,
                ),
                ParseVariantSource::SyllableConfusion => Some(
                    "\u{97f3}\u{8fd1}: "@ + raw + "->"@ + c@ + "\ttypo=1\tcorrection=syllable_confusion\tcorrected_reading="@
                        + c@,
                ),
                ParseVariantSource::PhoneticTypo => Some(
                    "\u{7ea0}\u{9519}: "@ + raw + "->"@ + c@ + "\ttypo=1\tcorrection=phonetic\tcorrected_reading="@ + c@,
                ),
                _ => None,
            }
        },
    }
}

fn label_with(kind: &str, raw: &str, corrected: &String, tags: &str) -> (r: String)
    ensures
        r@ == kind@ + raw@ + "->"@ + corrected@ + tags@ + corrected@,
{
    let mut out = String::new();
    push_str(&mut out, kind);
    push_str(&mut out, raw);
    push_str(&mut out, "->");
    push_str(&mut out, corrected.as_str());
    push_str(&mut out, tags);
    push_str(&mut out, corrected.as_str());
    assert(out@ =~= kind@ + raw@ + "->"@ + corrected@ + tags@ + corrected@);
    out
}

/// The label that marks a candidate from a corrected split (see
/// `correction_label`).
pub fn correction_meta_for_parse_variant(raw: &str, variant: &ParseVariant) -> (r: Option<String>)
    ensures
        match r {
            Some(label) => correction_label(raw@, *variant) == Some(label@),
            None => correction_label(raw@, *variant) is None,
        },
{
    let corrected = match &variant.corrected_input {
        Some(c) => c,
        None => {
            return None;
        },
    };
    match variant.source {
        ParseVariantSource::Exact | ParseVariantSource::AlternateSplit => {
            return None;
        },
        _ => {},
    }
    let compact_in = compact_lookup_key(raw);
    if *corrected == compact_in {
        return None;
    }
    match variant.source {
        ParseVariantSource::KeyboardTypo => Some(
            label_with("\u{7ea0}\u{9519}: ", raw, corrected, "\ttypo=1\tcorrection=keyboard\tcorrected_reading="),
        ),
        ParseVariantSource::SyllableConfusion => Some(
            label_with(
                "\u{97f3}\u{8fd1}: ",
                raw,
                corrected,
                "\ttypo=1\tcorrection=syllable_confusion\tcorrected_reading=",
            ),
        ),
        _ => Some(
            label_with("\u{7ea0}\u{9519}: ", raw, corrected, "\ttypo=1\tcorrection=phonetic\tcorrected_reading="),
        ),
    }
}

} // verus!
