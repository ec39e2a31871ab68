//! What a lookup remembers between requests while the first batch of a
//! long input is shown: the inputs owed a full lookup, and the lookup that
//! a first batch leaves to be continued.
use vstd::prelude::*;
use crate::pagination::{clamp_page, MAX_PAGE_SIZE};
use crate::text::prefix_of;
use crate::user_lexicon::strs_view;

verus! {

/// The inputs owed a full lookup that are remembered at most.
pub const MAX_PENDING_FULL_RETRY_KEYS: usize = 8;

/// A first batch that was shown for an input, to be continued by the next
/// lookup of the same input under the same state.
pub struct PendingContinuation {
    pub raw: String,
    pub mode_flags: u32,
    pub cache_epoch: u64,
    pub user_clock: u64,
}

/// The engine state a lookup runs under, and what it remembers.
pub struct LookupSession {
    pub mode_flags: u32,
    pub cache_epoch: u64,
    pub user_clock: u64,
    /// Inputs (with the mode flags they were typed under) that were answered
    /// by a first batch only, oldest first.
    pub retry_keys: Vec<(String, u32)>,
    pub continuation: Option<PendingContinuation>,
}

pub open spec fn retry_view(v: Seq<(String, u32)>) -> Seq<(Seq<char>, u32)> {
    v.map_values(|k: (String, u32)| (k.0@, k.1))
}

pub open spec fn continuation_view(c: Option<PendingContinuation>) -> Option<(Seq<char>, u32, u64, u64)> {
    match c {
        Some(p) => Some((p.raw@, p.mode_flags, p.cache_epoch, p.user_clock)),
        None => None,
    }
}

pub open spec fn other_key(raw: Seq<char>, mode: u32) -> spec_fn((Seq<char>, u32)) -> bool {
    |k: (Seq<char>, u32)| !(k.0 == raw && k.1 == mode)
}

/// The retry keys after arming `raw` under `mode`: an earlier copy leaves,
/// the key goes to the end, and the oldest keys beyond the limit leave.
pub open spec fn armed(keys: Seq<(Seq<char>, u32)>, raw: Seq<char>, mode: u32) -> Seq<(Seq<char>, u32)> {
    let pushed = keys.filter(other_key(raw, mode)).push((raw, mode));
    if pushed.len() > MAX_PENDING_FULL_RETRY_KEYS {
        pushed.skip(pushed.len() - MAX_PENDING_FULL_RETRY_KEYS)
    } else {
        pushed
    }
}

/// A candidate of a first batch: its phrase, whether it carries the mark
/// that the list is only a partial first batch (the first candidate does),
/// and whether it is the typed input shown as it is.
pub struct BatchCandidate {
    pub phrase: String,
    pub partial: bool,
    pub ascii_direct: bool,
}

pub open spec fn batch_view(v: Seq<BatchCandidate>) -> Seq<(Seq<char>, bool, bool)> {
    v.map_values(|c: BatchCandidate| (c.phrase@, c.partial, c.ascii_direct))
}

/// The first batch shown: nothing when the lookup was superseded; else
/// the kept candidates cut to a page, the first marked partial, or the
/// input itself, shown as typed and marked partial, when none are kept.
pub open spec fn first_batch(raw: Seq<char>, kept: Seq<Seq<char>>, page_size: usize, superseded: bool) -> Seq<
    (Seq<char>, bool, bool),
> {
    if superseded {
        Seq::empty()
    } else if kept.len() == 0 {
        seq![(raw, true, true)]
    } else {
        let cut = prefix_of(kept, clamp_page(page_size));
        Seq::new(cut.len(), |i: int| (cut[i], i == 0, false))
    }
}

impl LookupSession {
    /// Remembers that `raw`, under the session's mode flags, is owed a full
    /// lookup.
    pub fn arm_full_lookup_retry(&mut self, raw: &str)
        ensures
            retry_view(final(self).retry_keys@) == armed(retry_view(old(self).retry_keys@), raw@, old(self).mode_flags),
            final(self).mode_flags == old(self).mode_flags,
            final(self).cache_epoch == old(self).cache_epoch,
            final(self).user_clock == old(self).user_clock,
            continuation_view(final(self).continuation) == continuation_view(old(self).continuation),
    {
        let mode = self.mode_flags;
        let raw_s = raw.to_string();
        let ghost keys = retry_view(self.retry_keys@);
        let ghost keep = other_key(raw@, mode);
        let mut kept: Vec<(String, u32)> = Vec::new();
        let mut i: usize = 0;
        while i < self.retry_keys.len()
            invariant
                i <= self.retry_keys.len(),
                keys == retry_view(self.retry_keys@),
                keep == other_key(raw@, mode),
                raw_s@ == raw@,
                mode == self.mode_flags,
                retry_view(kept@) == keys.take(i as int).filter(keep),
            decreases self.retry_keys.len() - i,
        {
            proof {
                assert(keys.take(i + 1) =~= keys.take(i as int).push(keys[i as int]));
                keys.take(i as int).lemma_filter_push(keys[i as int], keep);
            }
            let k = &self.retry_keys[i];
            assert(keys[i as int] == (k.0@, k.1));
            if !(k.0 == raw_s && k.1 == mode) {
                let ghost before = retry_view(kept@);
                kept.push((k.0.clone(), k.1));
                assert(retry_view(kept@) =~= before.push(keys[i as int]));
            }
            i += 1;
        }
        assert(keys.take(self.retry_keys.len() as int) =~= keys);
        let ghost before = retry_view(kept@);
        kept.push((raw.to_string(), mode));
        assert(retry_view(kept@) =~= before.push((raw@, mode)));
        let ghost pushed = retry_view(kept@);
        let mut out: Vec<(String, u32)> = Vec::new();
        let start: usize = if kept.len() > MAX_PENDING_FULL_RETRY_KEYS {
            kept.len() - MAX_PENDING_FULL_RETRY_KEYS
        } else {
            0
        };
        let mut j: usize = start;
        while j < kept.len()
            invariant
                start <= j <= kept.len(),
                pushed == retry_view(kept@),
                retry_view(out@) == pushed.subrange(start as int, j as int),
            decreases kept.len() - j,
        {
            let ghost b = retry_view(out@);
            out.push((kept[j].0.clone(), kept[j].1));
            assert(retry_view(out@) =~= b.push(pushed[j as int]));
            assert(pushed.subrange(start as int, j + 1) =~= pushed.subrange(start as int, j as int).push(
                pushed[j as int],
            ));
            j += 1;
        }
        assert(pushed.subrange(start as int, kept.len() as int) =~= pushed.skip(start as int));
        assert(pushed.skip(0) =~= pushed);
        self.retry_keys = out;
    }

    /// `raw`, under the session's mode flags, is owed a full lookup.
    pub fn has_pending_full_lookup_retry(&self, raw: &str) -> (r: bool)
        ensures
            r == retry_view(self.retry_keys@).contains((raw@, self.mode_flags)),
    {
        let ghost keys = retry_view(self.retry_keys@);
        let raw_s = raw.to_string();
        let mut i: usize = 0;
        while i < self.retry_keys.len()
            invariant
                i <= self.retry_keys.len(),
                raw_s@ == raw@,
                keys == retry_view(self.retry_keys@),
                forall|k: int| 0 <= k < i ==> keys[k] != (raw@, self.mode_flags),
            decreases self.retry_keys.len() - i,
        {
            let k = &self.retry_keys[i];
            assert(keys[i as int] == (k.0@, k.1));
            if k.0 == raw_s && k.1 == self.mode_flags {
                assert(keys[i as int] == (raw@, self.mode_flags));
                return true;
            }
            i += 1;
        }
        false
    }

    /// Ends a first batch: `raw` is armed for a full lookup; a superseded
    /// lookup shows nothing and says so; otherwise the lookup is left to be
    /// continued under the session's state, and the kept candidates are
    /// shown cut to a page (the input itself when none are kept).
    pub fn finish_partial_first_batch(
        &mut self,
        raw: &str,
        kept: Vec<String>,
        page_size: usize,
        superseded: bool,
    ) -> (r: (Vec<BatchCandidate>, Option<String>))
        ensures
            retry_view(final(self).retry_keys@) == armed(retry_view(old(self).retry_keys@), raw@, old(self).mode_flags),
            final(self).mode_flags == old(self).mode_flags,
            final(self).cache_epoch == old(self).cache_epoch,
            final(self).user_clock == old(self).user_clock,
            batch_view(r.0@) == first_batch(raw@, strs_view(kept@), page_size, superseded),
            1 <= r.0@.len() <= clamp_page(page_size) || superseded,
            superseded ==> match r.1 {
                Some(e) => e@ == "lookup superseded"@,
                None => false,
            },
            superseded ==> continuation_view(final(self).continuation) == continuation_view(old(self).continuation),
            !superseded ==> r.1 is None,
            !superseded ==> continuation_view(final(self).continuation) == Some(
                (raw@, old(self).mode_flags, old(self).cache_epoch, old(self).user_clock),
            ),
    {
        self.arm_full_lookup_retry(raw);
        if superseded {
            let shown: Vec<BatchCandidate> = Vec::new();
            assert(batch_view(shown@) =~= Seq::<(Seq<char>, bool, bool)>::empty());
            return (shown, Some("lookup superseded".to_string()));
        }
        self.continuation = Some(
            PendingContinuation {
                raw: raw.to_string(),
                mode_flags: self.mode_flags,
                cache_epoch: self.cache_epoch,
                user_clock: self.user_clock,
            },
        );
        let ps: usize = if page_size < 3 {
            3
        } else if page_size > MAX_PAGE_SIZE {
            MAX_PAGE_SIZE
        } else {
            page_size
        };
        let mut shown: Vec<BatchCandidate> = Vec::new();
        if kept.len() == 0 {
            shown.push(BatchCandidate { phrase: raw.to_string(), partial: true, ascii_direct: true });
            assert(batch_view(shown@) =~= seq![(raw@, true, true)]);
            return (shown, None);
        }
        let ghost all = strs_view(kept@);
        let ghost cut = prefix_of(all, ps as int);
        let take = if kept.len() > ps { ps } else { kept.len() };
        assert(cut.len() == take);
        let mut i: usize = 0;
        while i < take
            invariant
                i <= take,
                take <= kept.len(),
                all == strs_view(kept@),
                cut == prefix_of(all, ps as int),
                cut.len() == take,
                batch_view(shown@) =~= Seq::new(i as nat, |k: int| (cut[k], k == 0, false)),
            decreases take - i,
        {
            assert(cut[i as int] == kept@[i as int]@);
            let c = kept[i].clone();
            assert(c@ == kept@[i as int]@);
            let ghost before = batch_view(shown@);
            shown.push(BatchCandidate { phrase: c, partial: i == 0, ascii_direct: false });
            assert(batch_view(shown@) =~= before.push((cut[i as int], i == 0, false)));
            i += 1;
        }
        (shown, None)
    }
}

} // verus!
