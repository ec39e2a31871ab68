//! Where a lookup goes before any candidate is ranked: nowhere for blank
//! input, to the radical lookup (`u` mode), to a custom phrase the user
//! defined, to the VV direct-input helper, to a direct-input shortcut such
//! as a date, or else on to the pinyin pipeline.
use vstd::prelude::*;
use crate::custom_shortcuts::{
    defs_view, lookup_detailed, normalized_shortcut_key, shortcut_lookup, ShortcutCandidate, ShortcutDef,
};
use crate::engine::MODE_CLIPBOARD_DISABLED;
use crate::text::{chars_of, string_of, trim_seq, trim_vec};

verus! {

/// `u` mode: an input that starts with `u` is looked up by radicals.
pub const MODE_U_MODE: u32 = 1024;
/// VV mode: an input that starts with `vv` goes to the direct-input helper.
pub const MODE_V_ASSIST: u32 = 2048;

/// A custom phrase offered for the input: the phrase, the key it was
/// defined under, and the note shown beside it (`自定义: ` and the key).
pub struct RoutedShortcut {
    pub phrase: String,
    pub source_key: String,
    pub annotation: String,
}

/// Where a lookup goes.
pub enum LookupRoute {
    /// The input is blank, or a clipboard command while the clipboard is
    /// off: no candidates.
    Empty,
    /// The user's custom phrases for the input, in their listed order.
    Shortcut(Vec<RoutedShortcut>),
    /// The radical candidates of a `u`-mode input.
    Radical,
    /// The answer of the direct-input helper to a `vv` command.
    VvCommand,
    /// The candidates of a direct-input shortcut (a date, a time, a
    /// function key).
    Direct,
    /// The pinyin lookup proper.
    Pipeline,
}

/// A route as plain values; a custom phrase as its phrase, source key and
/// note.
pub enum RouteView {
    Empty,
    Shortcut(Seq<(Seq<char>, Seq<char>, Seq<char>)>),
    Radical,
    VvCommand,
    Direct,
    Pipeline,
}

pub open spec fn routed_view(v: Seq<RoutedShortcut>) -> Seq<(Seq<char>, Seq<char>, Seq<char>)> {
    v.map_values(|c: RoutedShortcut| (c.phrase@, c.source_key@, c.annotation@))
}

pub open spec fn route_view(r: LookupRoute) -> RouteView {
    match r {
        LookupRoute::Empty => RouteView::Empty,
        LookupRoute::Shortcut(v) => RouteView::Shortcut(routed_view(v@)),
        LookupRoute::Radical => RouteView::Radical,
        LookupRoute::VvCommand => RouteView::VvCommand,
        LookupRoute::Direct => RouteView::Direct,
        LookupRoute::Pipeline => RouteView::Pipeline,
    }
}

/// The text that opens the note of a custom phrase.
pub open spec fn custom_label() -> Seq<char> {
    seq!['自', '定', '义', ':', ' ']
}

/// The note of a custom phrase defined under `key`.
pub open spec fn shortcut_annotation(key: Seq<char>) -> Seq<char> {
    custom_label() + key
}

/// Each (phrase, key) of a shortcut with its note.
pub open spec fn annotated(found: Seq<(Seq<char>, Seq<char>)>) -> Seq<(Seq<char>, Seq<char>, Seq<char>)> {
    found.map_values(|c: (Seq<char>, Seq<char>)| (c.0, c.1, shortcut_annotation(c.1)))
}

/// The route of `raw` under `mode_flags`, with the user's shortcut
/// definitions `defs`. The caller says what the helpers find for the
/// trimmed input: `radical_hit`, the radical lookup finds candidates;
/// `vv_clipboard_command`, the text after `vv` is a clipboard command;
/// `vv_hit`, the direct-input helper answers the `vv` command;
/// `direct_input_hit`, the input is an effective direct-input shortcut and
/// the helper finds its candidates.
///
/// The input is taken without surrounding whitespace: blank input goes
/// nowhere; in `u` mode an input of more than one character that starts
/// with `u` goes to the radical lookup when that finds candidates; an input
/// the user defined a shortcut for gives its phrases, each noted with its
/// key; in VV mode an input that starts with `vv` goes nowhere when it is a
/// clipboard command while the clipboard is off, and to the helper when
/// that answers; then a direct-input shortcut with candidates; else the
/// pipeline.
pub open spec fn lookup_route_spec(
    raw: Seq<char>,
    mode_flags: u32,
    defs: Seq<ShortcutDef>,
    radical_hit: bool,
    vv_clipboard_command: bool,
    vv_hit: bool,
    direct_input_hit: bool,
) -> RouteView {
    let t = trim_seq(raw);
    let vv = mode_flags & MODE_V_ASSIST != 0 && t.len() >= 2 && t[0] == 'v' && t[1] == 'v';
    if t.len() == 0 {
        RouteView::Empty
    } else if mode_flags & MODE_U_MODE != 0 && t[0] == 'u' && t.len() > 1 && radical_hit {
        RouteView::Radical
    } else if normalized_shortcut_key(t).len() > 0 && shortcut_lookup(defs, normalized_shortcut_key(t)) is Some {
        RouteView::Shortcut(annotated(shortcut_lookup(defs, normalized_shortcut_key(t))->0))
    } else if vv && mode_flags & MODE_CLIPBOARD_DISABLED != 0 && vv_clipboard_command {
        RouteView::Empty
    } else if vv && vv_hit {
        RouteView::VvCommand
    } else if direct_input_hit {
        RouteView::Direct
    } else {
        RouteView::Pipeline
    }
}

fn annotation_of(key: &String) -> (r: String)
    ensures
        r@ == shortcut_annotation(key@),
{
    let mut v: Vec<char> = Vec::new();
    v.push('自');
    v.push('定');
    v.push('义');
    v.push(':');
    v.push(' ');
    let ghost label = v@;
    assert(label =~= custom_label());
    let k = chars_of(key.as_str());
    let mut i: usize = 0;
    while i < k.len()
        invariant
            i <= k.len(),
            v@ == label + k@.take(i as int),
        decreases k.len() - i,
    {
        v.push(k[i]);
        i += 1;
        assert(v@ =~= label + k@.take(i as int));
    }
    assert(k@.take(k.len() as int) =~= k@);
    string_of(&v)
}

fn annotate(found: Vec<ShortcutCandidate>) -> (r: Vec<RoutedShortcut>)
    ensures
        routed_view(r@) == annotated(crate::custom_shortcuts::candidates_view(found@)),
{
    let ghost fv = crate::custom_shortcuts::candidates_view(found@);
    let mut out: Vec<RoutedShortcut> = Vec::new();
    let mut i: usize = 0;
    while i < found.len()
        invariant
            i <= found.len(),
            fv == crate::custom_shortcuts::candidates_view(found@),
            routed_view(out@) == annotated(fv.take(i as int)),
        decreases found.len() - i,
    {
        let c = &found[i];
        let phrase = c.phrase.clone();
        let source_key = c.source_key.clone();
        assert(phrase@ == c.phrase@ && source_key@ == c.source_key@);
        let annotation = annotation_of(&c.source_key);
        let ghost before = routed_view(out@);
        out.push(RoutedShortcut { phrase, source_key, annotation });
        assert(fv[i as int] == (c.phrase@, c.source_key@));
        assert(routed_view(out@) =~= before.push((c.phrase@, c.source_key@, shortcut_annotation(c.source_key@))));
        assert(fv.take(i + 1) =~= fv.take(i as int).push(fv[i as int]));
        assert(routed_view(out@) =~= annotated(fv.take(i + 1)));
        i += 1;
    }
    assert(fv.take(found.len() as int) =~= fv);
    out
}

/// The route of a lookup of `raw` (see `lookup_route_spec`).
pub fn lookup_route(
    raw: &str,
    mode_flags: u32,
    shortcuts: &Vec<(String, Vec<String>)>,
    radical_hit: bool,
    vv_clipboard_command: bool,
    vv_hit: bool,
    direct_input_hit: bool,
) -> (r: LookupRoute)
    ensures
        route_view(r) == lookup_route_spec(
            raw@,
            mode_flags,
            defs_view(shortcuts@),
            radical_hit,
            vv_clipboard_command,
            vv_hit,
            direct_input_hit,
        ),
{
    let chars = chars_of(raw);
    let t = trim_vec(&chars);
    if t.len() == 0 {
        return LookupRoute::Empty;
    }
    if mode_flags & MODE_U_MODE != 0 && t[0] == 'u' && t.len() > 1 && radical_hit {
        return LookupRoute::Radical;
    }
    let ts = string_of(&t);
    let hit = lookup_detailed(shortcuts, ts.as_str());
    match hit {
        Some(c) => {
            return LookupRoute::Shortcut(annotate(c));
        },
        None => {},
    }
    let vv = mode_flags & MODE_V_ASSIST != 0 && t.len() >= 2 && t[0] == 'v' && t[1] == 'v';
    if vv && mode_flags & MODE_CLIPBOARD_DISABLED != 0 && vv_clipboard_command {
        return LookupRoute::Empty;
    }
    if vv && vv_hit {
        return LookupRoute::VvCommand;
    }
    if direct_input_hit {
        LookupRoute::Direct
    } else {
        LookupRoute::Pipeline
    }
}

} // verus!
