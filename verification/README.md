# pinyin_ime

The verified core of a pinyin input method, written in Verus. Every
function under `src/` carries a contract that Verus proves; `app/` holds the
file and environment plumbing and the floating-point score adapters around
it.

## Layout

- `engine.rs`: the engine. Its reading index, user dictionary, phrase
  lexicon, common-character list, mode flags and lookup caches, the lookup
  of a reading (user phrases, then lexicon phrases, then single characters)
  and learning from commits, selections, pins, removals and blocks. Laws:
  a cached lookup equals a cold one, the first page is the head of the full
  lookup, a committed phrase is offered again.
- `phrase_lexicon.rs`: the `phrase<TAB>reading<TAB>weight` lexicon format,
  its base and extension layers, the keys base rows are also filed under
  (abbreviations, mixed full/initial keys) and the phrases it offers for a
  key.
- `user_lexicon.rs`, `learning.rs`, `learn_plan.rs`: the user dictionary and
  what a commit or a selection teaches it.
- `lookup_route.rs`: where a lookup goes (blank input, `u`-mode radicals,
  custom phrases, the VV helper, direct input, the pipeline).
- `lookup_session.rs`: first batches of long inputs, their retry keys and
  continuations.
- `lookup_cache.rs`, `cache.rs`: the lookup caches (over the `lru` crate)
  and their keys.
- `phrase_head.rs`, `pagination.rs`, `three_char.rs`, `postprocess.rs`,
  `priority_groups.rs`, `postprocess_groups.rs`, `partial_page.rs`: the
  arrangements of the candidate list, each from plain flags to a new order.
- `dict.rs`, `single_char_common.rs`: character readings (over the `pinyin`
  crate) and the common-character frequency list.
- `custom_shortcuts.rs`, `correction_prefs.rs`: the settings file sections.
- `intent.rs`, `parse_variants.rs`, `candidate_meta.rs`, `literal.rs`,
  `lookup_checks.rs`, `common_singles.rs`, `frequency_order.rs`, `order.rs`,
  `text.rs`: classification and shared utilities.

`tests/` runs the library on concrete inputs.
