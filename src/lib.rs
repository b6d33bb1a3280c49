//! A durable approximate-membership filter: a Bloom filter over `u64` keys
//! whose state survives restarts through a checkpoint and a write-ahead log.
//!
//! The library decides and encodes; the caller does the file work. It saves
//! each checkpoint record it is handed by writing a sibling file and renaming
//! it over the canonical one, appends each log line, and empties the log
//! right after every checkpoint.
use bloomfilter::Bloom;
use vstd::prelude::*;

pub mod bloom;
pub mod checkpoint;
pub mod wal;

use crate::bloom::{
    bit_at, bloom_bitmap, bloom_bitmap_bytes, bloom_bits, bloom_check, bloom_check_of,
    bloom_from_existing, bloom_holds, bloom_keys, bloom_new_with_seed,
    bloom_number_of_hashes, bloom_optimal_k, bloom_set, bloom_state,
    key_positions, lemma_set_key_effect, replay, seed_keys, set_key, zero_bitmap,
};
use crate::checkpoint::{
    decode_checkpoint, encode_checkpoint, lemma_checkpoint_round_trip, record_bytes, record_parse,
    usable_state, CheckpointError, FilterState, Snapshot,
};
use crate::wal::{
    lemma_wal_round_trip, line_of, parse_wal, wal_keys, wal_line, wal_text, wal_well_formed,
};

verus! {

/// Milliseconds between checkpoints taken on insertion.
pub const CHECKPOINT_MS: u64 = 300_000;

/// What a storage directory held at start-up: the checkpoint record and the
/// log text (empty when there was no log file).
pub struct Saved {
    pub checkpoint: Vec<u8>,
    pub wal: Vec<u8>,
}

/// Why a filter could not be started.
#[derive(Debug, PartialEq, Eq, Structural, Clone, Copy)]
pub enum InitError {
    /// The checkpoint record could not be read back.
    Checkpoint(CheckpointError),
    /// A line of the log records no key.
    WalLine,
    /// A fresh filter needs a positive size, whose bits a `usize` counts, and a
    /// positive expected number of entries.
    InvalidSize,
}

/// What the caller does after an insertion: append `wal_line` to the log,
/// then, when `checkpoint` holds a record, save it and empty the log.
pub struct SetStep {
    pub wal_line: Vec<u8>,
    pub checkpoint: Option<Vec<u8>>,
}

/// A filter session: the Bloom filter, the time of its last checkpoint, and
/// the checkpoint and log that its state is rebuilt from.
pub struct Filter {
    bloom: Bloom<u64>,
    prev_checkpoint: u64,
    /// The state in the last checkpoint record handed out.
    checkpointed: Ghost<FilterState>,
    /// The keys handed out as log lines since that checkpoint, in order.
    pending: Ghost<Seq<u64>>,
}

/// Whether `g` is the filter that recovery from the checkpoint record `cp`
/// and the log text `wal` gives: the record's state with the log's keys set
/// in order.
pub open spec fn recovered_from(g: Filter, cp: Seq<u8>, wal: Seq<u8>) -> bool {
    &&& g.wf()
    &&& g.state() == replay(record_parse(cp).unwrap(), wal_keys(wal))
}

/// Whether recovery from `cp` and `wal` succeeds.
pub open spec fn recovery_ok(cp: Seq<u8>, wal: Seq<u8>) -> bool {
    &&& record_parse(cp).is_some()
    &&& usable_state(record_parse(cp).unwrap())
    &&& wal_well_formed(wal)
}

impl Filter {
    /// The filter's bitmap, hash count and SipHash keys.
    pub closed spec fn state(self) -> FilterState {
        bloom_state(self.bloom)
    }

    /// Whether the filter answers yes for `key`.
    pub open spec fn holds(self, key: u64) -> bool {
        bloom_check_of(self.state().0, self.state().1, self.state().2, key)
    }

    /// The time of the last checkpoint, in milliseconds.
    pub closed spec fn last_checkpoint(self) -> u64 {
        self.prev_checkpoint
    }

    /// The state in the last checkpoint record.
    pub closed spec fn checkpointed(self) -> FilterState {
        self.checkpointed@
    }

    /// The keys logged since the last checkpoint, in order.
    pub closed spec fn pending(self) -> Seq<u64> {
        self.pending@
    }

    /// The filter's invariant: a usable bitmap, all of whose bits are hashed
    /// into; a state that is exactly the last checkpoint's with the keys
    /// logged since set in order; and a yes for each of those keys.
    pub closed spec fn wf(self) -> bool {
        &&& usable_state(self.state())
        &&& bloom_bits(self.bloom) == self.state().0.len() * 8
        &&& usable_state(self.checkpointed@)
        &&& self.state() == replay(self.checkpointed@, self.pending@)
        &&& forall|i: int| 0 <= i < self.pending@.len() ==> self.holds(#[trigger] self.pending@[i])
    }

    /// The checkpoint record of the filter's current state.
    pub fn checkpoint_record(&self) -> (r: Vec<u8>)
        ensures
            r@ == record_bytes(self.state()),
    {
        let snap = Snapshot {
            bitmap: bloom_bitmap_bytes(&self.bloom),
            k_num: bloom_number_of_hashes(&self.bloom),
            sip_keys: bloom_keys(&self.bloom),
        };
        encode_checkpoint(&snap)
    }

    /// Starts a filter at time `now`. With no saved state, a fresh filter of
    /// `n_bytes` bytes sized for `expected_entries` keys, its hash keys drawn
    /// from `seed`; otherwise the checkpoint's filter with the log's keys set
    /// into it, the sizes and seed then being ignored. The caller then saves
    /// `checkpoint_record()` and empties the log.
    pub fn new(
        saved: Option<Saved>,
        n_bytes: usize,
        expected_entries: usize,
        seed: [u8; 32],
        now: u64,
    ) -> (r: Result<Filter, InitError>)
        ensures
            saved is None ==> {
                &&& r is Err <==> (n_bytes == 0 || expected_entries == 0 || n_bytes * 8 > usize::MAX)
                &&& r is Err ==> r == Err::<Filter, InitError>(InitError::InvalidSize)
                &&& r is Ok ==> {
                    let g = r.unwrap();
                    &&& g.state() == (
                        zero_bitmap(n_bytes as nat),
                        bloom_optimal_k((n_bytes * 8) as u64, expected_entries),
                        seed_keys(seed@),
                    )
                    &&& g.state().1 >= 1
                    &&& forall|key: u64| !g.holds(key)
                }
            },
            saved is Some ==> {
                let cp = saved.unwrap().checkpoint@;
                let wal = saved.unwrap().wal@;
                &&& r is Ok <==> recovery_ok(cp, wal)
                &&& r is Ok ==> recovered_from(r.unwrap(), cp, wal)
                &&& record_parse(cp).is_none() ==> r == Err::<Filter, InitError>(
                    InitError::Checkpoint(CheckpointError::Truncated),
                )
                &&& (record_parse(cp).is_some() && record_parse(cp).unwrap().0.len() == 0) ==> r
                    == Err::<Filter, InitError>(InitError::Checkpoint(CheckpointError::EmptyBitmap))
                &&& (record_parse(cp).is_some() && record_parse(cp).unwrap().0.len() * 8 > usize::MAX)
                    ==> r == Err::<Filter, InitError>(
                    InitError::Checkpoint(CheckpointError::Oversized),
                )
                &&& (record_parse(cp).is_some() && usable_state(record_parse(cp).unwrap())
                    && !wal_well_formed(wal)) ==> r == Err::<Filter, InitError>(
                    InitError::WalLine,
                )
            },
            r is Ok ==> {
                let g = r.unwrap();
                &&& g.wf()
                &&& g.last_checkpoint() == now
                &&& g.checkpointed() == g.state()
                &&& g.pending() == Seq::<u64>::empty()
            },
    {
        let ghost fresh = saved is None;
        let bloom = match saved {
            None => {
                if n_bytes == 0 || expected_entries == 0 || n_bytes > usize::MAX / 8 {
                    return Err(InitError::InvalidSize);
                }
                let b = bloom_new_with_seed(n_bytes, expected_entries, seed);
                b
            },
            Some(s) => {
                let snap = match decode_checkpoint(s.checkpoint.as_slice()) {
                    Ok(snap) => snap,
                    Err(e) => {
                        return Err(InitError::Checkpoint(e));
                    },
                };
                let keys = match parse_wal(s.wal.as_slice()) {
                    Some(keys) => keys,
                    None => {
                        return Err(InitError::WalLine);
                    },
                };
                let ghost st = snap@;
                let bitmap_bits = snap.bitmap.len() as u64 * 8;
                let mut bloom = bloom_from_existing(
                    snap.bitmap.as_slice(),
                    bitmap_bits,
                    snap.k_num,
                    snap.sip_keys,
                );
                let mut i: usize = 0;
                assert(keys@.subrange(0, 0) =~= Seq::<u64>::empty());
                while i < keys.len()
                    invariant
                        i <= keys@.len(),
                        usable_state(st),
                        bloom_bits(bloom) == st.0.len() * 8,
                        bloom_bitmap(bloom).len() == st.0.len(),
                        bloom_state(bloom) == replay(st, keys@.subrange(0, i as int)),
                    decreases keys@.len() - i,
                {
                    let ghost before = bloom_state(bloom);
                    assert((before.0.len() * 8) as u64 == bloom_bits(bloom));
                    bloom_set(&mut bloom, keys[i]);
                    proof {
                        let done = keys@.subrange(0, i as int + 1);
                        assert(done.drop_last() =~= keys@.subrange(0, i as int));
                        assert(bloom_state(bloom) == set_key(before, keys@[i as int]));
                    }
                    i = i + 1;
                }
                assert(keys@.subrange(0, i as int) =~= keys@);
                bloom
            },
        };
        let ghost st = bloom_state(bloom);
        let g = Filter {
            bloom,
            prev_checkpoint: now,
            checkpointed: Ghost(st),
            pending: Ghost(Seq::empty()),
        };
        proof {
            if fresh {
                assert forall|key: u64| !g.holds(key) by {
                    assert(!bloom_holds(g.bloom, key));
                }
            }
        }
        Ok(g)
    }

    /// Sets `key` at time `now` and says what the caller must write: the
    /// key's log line, and a checkpoint record when more than
    /// `CHECKPOINT_MS` have passed since the last checkpoint.
    pub fn set(&mut self, key: u64, now: u64) -> (r: SetStep)
        requires
            old(self).wf(),
        ensures
            final(self).wf(),
            final(self).state() == set_key(old(self).state(), key),
            final(self).holds(key),
            forall|i: int| bit_at(old(self).state().0, i) ==> #[trigger] bit_at(final(self).state().0, i),
            forall|q: u64| old(self).holds(q) ==> #[trigger] final(self).holds(q),
            r.wal_line@ == line_of(key),
            r.checkpoint is Some <==> now > old(self).last_checkpoint() + CHECKPOINT_MS,
            r.checkpoint is Some ==> {
                &&& r.checkpoint.unwrap()@ == record_bytes(final(self).state())
                &&& final(self).checkpointed() == final(self).state()
                &&& final(self).pending() == Seq::<u64>::empty()
                &&& final(self).last_checkpoint() == now
            },
            r.checkpoint is None ==> {
                &&& final(self).checkpointed() == old(self).checkpointed()
                &&& final(self).pending() == old(self).pending().push(key)
                &&& final(self).last_checkpoint() == old(self).last_checkpoint()
            },
    {
        let ghost before = bloom_state(self.bloom);
        assert((before.0.len() * 8) as u64 == bloom_bits(self.bloom));
        bloom_set(&mut self.bloom, key);
        proof {
            lemma_set_key_effect(before, key);
        }
        let line = wal_line(key);
        self.pending = Ghost(self.pending@.push(key));
        proof {
            assert(self.pending@.drop_last() =~= old(self).pending@);
            assert forall|i: int| 0 <= i < self.pending@.len() implies self.holds(
                #[trigger] self.pending@[i],
            ) by {
                if i < old(self).pending@.len() {
                    assert(old(self).holds(old(self).pending@[i]));
                }
            }
        }
        let checkpoint = if now > self.prev_checkpoint && now - self.prev_checkpoint > CHECKPOINT_MS {
            self.prev_checkpoint = now;
            self.checkpointed = Ghost(self.state());
            self.pending = Ghost(Seq::empty());
            Some(self.checkpoint_record())
        } else {
            None
        };
        SetStep { wal_line: line, checkpoint }
    }

    /// Whether the filter answers yes for `key`: always for a key that was
    /// set, and for other keys with a small probability.
    pub fn check(&mut self, key: u64) -> (r: bool)
        requires
            old(self).wf(),
        ensures
            *final(self) == *old(self),
            r == old(self).holds(key),
    {
        let ghost st = self.state();
        let ghost ps = key_positions(st.0, st.1, st.2, key);
        assert((st.0.len() * 8) as u64 == bloom_bits(self.bloom));
        let r = bloom_check(&self.bloom, key);
        proof {
            if !r {
                let p = choose|p: int| #[trigger] ps.contains(p) && !bit_at(st.0, p);
                assert(ps.contains(p) && !bit_at(st.0, p));
            }
        }
        r
    }
}

/// Crash recovery: started again from its last checkpoint record and the
/// log lines written since, a filter is recovered with exactly the state it
/// had, so every key it answered yes for is still answered yes for.
pub proof fn lemma_crash_recovery(f: Filter, g: Filter)
    requires
        f.wf(),
    ensures
        recovery_ok(record_bytes(f.checkpointed()), wal_text(f.pending())),
        recovered_from(g, record_bytes(f.checkpointed()), wal_text(f.pending())) ==> g.state()
            == f.state(),
        recovered_from(g, record_bytes(f.checkpointed()), wal_text(f.pending())) ==> forall|
            key: u64,
        | f.holds(key) ==> #[trigger] g.holds(key),
{
    lemma_checkpoint_round_trip(f.checkpointed());
    lemma_wal_round_trip(f.pending());
}

/// Crash recovery, key by key: after a restart from the last checkpoint
/// record and the log lines written since, every key logged since that
/// checkpoint is answered yes for.
pub proof fn lemma_logged_keys_survive(f: Filter, g: Filter)
    requires
        f.wf(),
    ensures
        recovered_from(g, record_bytes(f.checkpointed()), wal_text(f.pending())) ==> forall|i: int|
            0 <= i < f.pending().len() ==> g.holds(#[trigger] f.pending()[i]),
{
    lemma_crash_recovery(f, g);
}

/// Recovery is a function of the saved bytes: two filters recovered from
/// the same checkpoint record and log have the same state.
pub proof fn lemma_recovery_deterministic(g1: Filter, g2: Filter, cp: Seq<u8>, wal: Seq<u8>)
    ensures
        recovered_from(g1, cp, wal) && recovered_from(g2, cp, wal) ==> g1.state() == g2.state(),
{
}

/// Checkpoint round trip: a filter started from the checkpoint record of a
/// state and an empty log has exactly that state, bitmap, hash count and
/// keys.
pub proof fn lemma_checkpoint_restores_state(f: Filter, g: Filter)
    requires
        f.wf(),
    ensures
        recovery_ok(record_bytes(f.state()), Seq::empty()),
        recovered_from(g, record_bytes(f.state()), Seq::empty()) ==> g.state() == f.state(),
{
    lemma_checkpoint_round_trip(f.state());
    lemma_wal_round_trip(Seq::empty());
    assert(wal_text(Seq::empty()) =~= Seq::<u8>::empty());
}

/// Replaying the log emptied by a checkpoint changes nothing: started from
/// its last checkpoint record and an empty log, a filter has the state that
/// the checkpoint recorded.
pub proof fn lemma_empty_log_replay(f: Filter, g: Filter)
    requires
        f.wf(),
        f.pending() == Seq::<u64>::empty(),
    ensures
        wal_text(f.pending()) == Seq::<u8>::empty(),
        recovery_ok(record_bytes(f.checkpointed()), wal_text(f.pending())),
        recovered_from(g, record_bytes(f.checkpointed()), wal_text(f.pending())) ==> g.state()
            == f.checkpointed(),
{
    lemma_checkpoint_round_trip(f.checkpointed());
    lemma_wal_round_trip(f.pending());
}

} // verus!
