//! Small decisions of the lookup that read the lexicon's answers for the
//! input: when the strict frequency order applies and to which phrase
//! length, whether a two-letter abbreviation collides with a hot date/time
//! shortcut, and whether a long key reads as a full-pinyin word followed by
//! initials. The lexicon's answers come in as plain phrase lists.
use vstd::prelude::*;
use crate::engine::{compact_key, compact_lookup_key};
use crate::intent::InputIntent;
use crate::learning::phrase_char_count;
use crate::parse_variants::{joined, syllables_view, ParseVariant, ParseVariantSource};
use crate::text::{chars_of, count_non_ws, is_ascii_char, push_char};
use crate::user_lexicon::strs_view;

verus! {

/// The split that the strict frequency order reads for full pinyin: an
/// exact split without a tail of two or more syllables that spell the key,
/// from `i` on.
pub open spec fn spelling_split_from(vs: Seq<ParseVariant>, key: Seq<char>, i: int) -> Option<int>
    decreases vs.len() - i,
{
    if i < 0 || i >= vs.len() {
        None
    } else if vs[i].source == ParseVariantSource::Exact && vs[i].tail is None && vs[i].syllables@.len() >= 2
        && joined(syllables_view(vs[i])) == key {
        Some(i)
    } else {
        spelling_split_from(vs, key, i + 1)
    }
}

/// When the strict frequency order applies: for an abbreviation (with
/// abbreviations enabled) to phrases of the key's length; for full pinyin
/// to phrases of as many characters as the spelling split has syllables.
pub open spec fn strict_order_context(
    intent: InputIntent,
    jianpin_enabled: bool,
    key: Seq<char>,
    exact_variants: Option<Seq<ParseVariant>>,
) -> Option<(InputIntent, usize)> {
    if intent == InputIntent::ShortAbbrev && jianpin_enabled {
        Some((InputIntent::ShortAbbrev, key.len() as usize))
    } else if intent == InputIntent::FullPinyin {
        match exact_variants {
            Some(vs) => match spelling_split_from(vs, key, 0) {
                Some(i) => Some((InputIntent::FullPinyin, vs[i].syllables@.len() as usize)),
                None => None,
            },
            None => None,
        }
    } else {
        None
    }
}

fn joined_exec(syllables: &Vec<String>) -> (r: Vec<char>)
    ensures
        r@ == joined(syllables@.map_values(|s: String| s@)),
{
    let ghost sv = syllables@.map_values(|s: String| s@);
    let mut out: Vec<char> = Vec::new();
    let mut j: usize = 0;
    while j < syllables.len()
        invariant
            j <= syllables.len(),
            sv == syllables@.map_values(|s: String| s@),
            out@ == joined(sv.take(j as int)),
        decreases syllables.len() - j,
    {
        assert(sv.take(j + 1).drop_last() =~= sv.take(j as int));
        let c = chars_of(syllables[j].as_str());
        let mut k: usize = 0;
        let ghost base = out@;
        while k < c.len()
            invariant
                k <= c.len(),
                out@ == base + c@.take(k as int),
            decreases c.len() - k,
        {
            out.push(c[k]);
            k += 1;
            assert(out@ =~= base + c@.take(k as int));
        }
        assert(c@.take(c.len() as int) =~= c@);
        j += 1;
    }
    assert(sv.take(syllables.len() as int) =~= sv);
    out
}

/// Whether and how the strict frequency order applies to an input of
/// intent `intent` and key `compact_key` (see `strict_order_context`);
/// `exact_variants` are the input's exact splits, `None` when it does not
/// split.
pub fn strict_lexicon_frequency_order_context(
    intent: InputIntent,
    jianpin_enabled: bool,
    compact_key: &str,
    exact_variants: Option<&Vec<ParseVariant>>,
) -> (r: Option<(InputIntent, usize)>)
    ensures
        r == strict_order_context(
            intent,
            jianpin_enabled,
            compact_key@,
            match exact_variants {
                Some(v) => Some(v@),
                None => None,
            },
        ),
{
    let key = chars_of(compact_key);
    if intent == InputIntent::ShortAbbrev && jianpin_enabled {
        return Some((InputIntent::ShortAbbrev, key.len()));
    }
    if intent != InputIntent::FullPinyin {
        return None;
    }
    let vs = match exact_variants {
        Some(vs) => vs,
        None => {
            return None;
        },
    };
    let mut i: usize = 0;
    while i < vs.len()
        invariant
            i <= vs.len(),
            key@ == compact_key@,
            intent == InputIntent::FullPinyin,
            exact_variants == Some(vs),
            spelling_split_from(vs@, key@, i as int) == spelling_split_from(vs@, key@, 0),
        decreases vs.len() - i,
    {
        let v = &vs[i];
        if v.source == ParseVariantSource::Exact && v.tail.is_none() && v.syllables.len() >= 2 {
            let spelled = joined_exec(&v.syllables);
            assert(syllables_view(vs@[i as int]) == v.syllables@.map_values(|s: String| s@));
            if crate::text::eq_vec(&spelled, &key) {
                assert(joined(syllables_view(vs@[i as int])) == key@);
                assert(spelling_split_from(vs@, key@, i as int) == Some(i as int));
                assert(spelling_split_from(vs@, compact_key@, 0) == Some(i as int));
                return Some((InputIntent::FullPinyin, v.syllables.len()));
            }
        }
        i += 1;
    }
    None
}

/// A hot two-letter abbreviation that collides with a date/time shortcut:
/// `sj` when the hot phrases include 手机 or 睡觉, `dt` when they include 地铁.
pub open spec fn hot_abbrev_conflict(key: Seq<char>, hot: Seq<Seq<char>>) -> bool {
    if key == "sj"@ {
        exists|i: int| 0 <= i < hot.len() && (hot[i] == "\u{624b}\u{673a}"@ || hot[i] == "\u{7761}\u{89c9}"@)
    } else if key == "dt"@ {
        exists|i: int| 0 <= i < hot.len() && hot[i] == "\u{5730}\u{94c1}"@
    } else {
        false
    }
}

/// Whether the key of `raw` is a hot two-letter abbreviation that collides
/// with a date/time shortcut (see `hot_abbrev_conflict`); `hot_phrases`
/// are the lexicon's hot phrases for that key, `None` without a lexicon or
/// without hot phrases.
pub fn has_hot_two_char_abbrev_conflict(raw: &str, hot_phrases: Option<&Vec<String>>) -> (r: bool)
    ensures
        r == match hot_phrases {
            Some(h) => hot_abbrev_conflict(compact_key(raw@), strs_view(h@)),
            None => false,
        },
{
    let hot = match hot_phrases {
        Some(h) => h,
        None => {
            return false;
        },
    };
    let key = compact_lookup_key(raw);
    let ghost hv = strs_view(hot@);
    let sj = String::from_str("sj");
    let dt = String::from_str("dt");
    if key == sj {
        let a = String::from_str("\u{624b}\u{673a}");
        let b = String::from_str("\u{7761}\u{89c9}");
        let mut i: usize = 0;
        while i < hot.len()
            invariant
                i <= hot.len(),
                hv == strs_view(hot@),
                hot_phrases == Some(hot),
                key@ == compact_key(raw@),
                key@ == "sj"@,
                a@ == "\u{624b}\u{673a}"@,
                b@ == "\u{7761}\u{89c9}"@,
                forall|k: int| 0 <= k < i ==> (#[trigger] hv[k]) != a@ && hv[k] != b@,
            decreases hot.len() - i,
        {
            if hot[i] == a || hot[i] == b {
                assert(hv[i as int] == hot@[i as int]@);
                assert(hv[i as int] == "\u{624b}\u{673a}"@ || hv[i as int] == "\u{7761}\u{89c9}"@);
                assert(key@ == "sj"@);
                return true;
            }
            i += 1;
        }
        false
    } else if key == dt {
        proof {
            reveal_strlit("sj");
            reveal_strlit("dt");
            assert(key@ != "sj"@) by {
                assert(key@ == "dt"@);
                assert("dt"@[0] != "sj"@[0]);
            }
        }
        let a = String::from_str("\u{5730}\u{94c1}");
        let mut i: usize = 0;
        while i < hot.len()
            invariant
                i <= hot.len(),
                hv == strs_view(hot@),
                hot_phrases == Some(hot),
                key@ == compact_key(raw@),
                key@ == "dt"@,
                key@ != "sj"@,
                a@ == "\u{5730}\u{94c1}"@,
                forall|k: int| 0 <= k < i ==> (#[trigger] hv[k]) != a@,
            decreases hot.len() - i,
        {
            if hot[i] == a {
                assert(hv[i as int] == hot@[i as int]@);
                assert(hv[i as int] == "\u{5730}\u{94c1}"@);
                assert(key@ == "dt"@);
                return true;
            }
            i += 1;
        }
        false
    } else {
        false
    }
}

/// The hot phrases for the first `l` letters include one of two or more
/// characters.
pub open spec fn prefix_has_multi_char(t: Seq<Option<Seq<Seq<char>>>>, l: int) -> bool {
    0 <= l < t.len() && match t[l] {
        Some(entries) => exists|e: int| 0 <= e < entries.len() && count_non_ws(#[trigger] entries[e]) >= 2,
        None => false,
    }
}

/// A long key (nine or more letters, ASCII only) whose prefix without its
/// last two, three or four letters the lexicon's hot full-pinyin index
/// knows as a phrase of two or more characters: a full-pinyin word
/// followed by initials. `t[l]` holds the hot phrases for the first `l`
/// letters.
pub open spec fn long_mixed_composition(key: Seq<char>, t: Option<Seq<Option<Seq<Seq<char>>>>>) -> bool {
    &&& key.len() >= 9
    &&& forall|i: int| 0 <= i < key.len() ==> is_ascii_char(#[trigger] key[i])
    &&& t matches Some(tv) && (prefix_has_multi_char(tv, key.len() - 2) || prefix_has_multi_char(tv, key.len() - 3)
        || prefix_has_multi_char(tv, key.len() - 4))
}

pub open spec fn hot_lookups_view(t: Seq<Option<Vec<String>>>) -> Seq<Option<Seq<Seq<char>>>> {
    t.map_values(|o: Option<Vec<String>>| match o {
        Some(v) => Some(strs_view(v@)),
        None => None,
    })
}

fn has_multi_char_phrase(entries: &Vec<String>) -> (r: bool)
    ensures
        r == exists|e: int| 0 <= e < entries@.len() && count_non_ws(#[trigger] strs_view(entries@)[e]) >= 2,
{
    let ghost ev = strs_view(entries@);
    let mut i: usize = 0;
    while i < entries.len()
        invariant
            i <= entries.len(),
            ev == strs_view(entries@),
            forall|k: int| 0 <= k < i ==> count_non_ws(#[trigger] ev[k]) < 2,
        decreases entries.len() - i,
    {
        if phrase_char_count(entries[i].as_str()) >= 2 {
            assert(count_non_ws(ev[i as int]) >= 2);
            return true;
        }
        i += 1;
    }
    false
}

/// Whether a long key reads as a full-pinyin word followed by two to four
/// initials (see `long_mixed_composition`); `hot_prefix_lookups` holds at
/// index `l` the hot full-pinyin phrases for the first `l` letters, `None`
/// without a lexicon.
pub fn long_mixed_composition_intent(
    compact_key: &str,
    hot_prefix_lookups: Option<&Vec<Option<Vec<String>>>>,
) -> (r: bool)
    ensures
        r == long_mixed_composition(
            compact_key@,
            match hot_prefix_lookups {
                Some(t) => Some(hot_lookups_view(t@)),
                None => None,
            },
        ),
{
    let key = chars_of(compact_key);
    if key.len() < 9 {
        return false;
    }
    let mut i: usize = 0;
    while i < key.len()
        invariant
            i <= key.len(),
            key@ == compact_key@,
            forall|k: int| 0 <= k < i ==> is_ascii_char(#[trigger] key@[k]),
        decreases key.len() - i,
    {
        if key[i] > '\u{7f}' {
            return false;
        }
        i += 1;
    }
    let t = match hot_prefix_lookups {
        Some(t) => t,
        None => {
            return false;
        },
    };
    let ghost tv = hot_lookups_view(t@);
    let mut s: usize = 2;
    while s <= 4
        invariant
            2 <= s <= 5,
            key@ == compact_key@,
            key.len() >= 9,
            hot_prefix_lookups == Some(t),
            forall|k: int| 0 <= k < key@.len() ==> is_ascii_char(#[trigger] key@[k]),
            tv == hot_lookups_view(t@),
            s > 2 ==> !prefix_has_multi_char(tv, key@.len() - 2),
            s > 3 ==> !prefix_has_multi_char(tv, key@.len() - 3),
            s > 4 ==> !prefix_has_multi_char(tv, key@.len() - 4),
        decreases 5 - s,
    {
        let l = key.len() - s;
        if l < t.len() {
            match &t[l] {
                Some(entries) => {
                    assert(tv[l as int] == Some(strs_view(entries@)));
                    if has_multi_char_phrase(entries) {
                        proof {
                            let ev = strs_view(entries@);
                            let e = choose|e: int| 0 <= e < entries@.len() && count_non_ws(#[trigger] strs_view(entries@)[e]) >= 2;
                            assert(ev.len() == entries@.len());
                            assert(count_non_ws(ev[e]) >= 2);
                            assert(tv.len() == t@.len());
                            assert(tv[l as int] == Some(ev));
                            assert(prefix_has_multi_char(tv, l as int)) by {
                                let en = tv[l as int]->0;
                                assert(en == ev);
                                assert(0 <= e < en.len() && count_non_ws(en[e]) >= 2);
                            }
                            assert(s == 2 || s == 3 || s == 4);
                        }
                        return true;
                    }
                },
                None => {},
            }
        }
        s += 1;
    }
    false
}

} // verus!
