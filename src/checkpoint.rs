//! The checkpoint record: a filter's bitmap, hash count and SipHash keys,
//! in bincode's fixed-width little-endian layout.
use crate::bloom::SipKeys;
use vstd::arithmetic::div_mod::lemma_breakdown;
use vstd::prelude::*;

verus! {

/// `256` to the power `n`.
pub open spec fn pow256(n: nat) -> nat
    decreases n,
{
    if n == 0 {
        1
    } else {
        256 * pow256((n - 1) as nat)
    }
}

/// The low `n` bytes of `x`, least significant first.
pub open spec fn le_bytes(x: nat, n: nat) -> Seq<u8>
    decreases n,
{
    if n == 0 {
        seq![]
    } else {
        seq![(x % 256) as u8] + le_bytes(x / 256, (n - 1) as nat)
    }
}

/// The number that the bytes `s` spell, least significant first.
pub open spec fn le_value(s: Seq<u8>) -> nat
    decreases s.len(),
{
    if s.len() == 0 {
        0
    } else {
        s[0] as nat + 256 * le_value(s.drop_first())
    }
}

/// The state a checkpoint holds: bitmap, hash count and SipHash keys.
pub type FilterState = (Seq<u8>, u32, SipKeys);

/// The bytes of the checkpoint record for `st`: the bitmap's length as eight
/// bytes, the bitmap, the hash count as four bytes, then the four key words
/// as eight bytes each.
pub open spec fn record_bytes(st: FilterState) -> Seq<u8> {
    le_bytes(st.0.len(), 8) + st.0 + le_bytes(st.1 as nat, 4) + le_bytes(st.2.0.0 as nat, 8)
        + le_bytes(st.2.0.1 as nat, 8) + le_bytes(st.2.1.0 as nat, 8) + le_bytes(st.2.1.1 as nat, 8)
}

/// The `u64` spelled by the eight bytes of `s` at `at`.
pub open spec fn word_at(s: Seq<u8>, at: int) -> u64 {
    le_value(s.subrange(at, at + 8)) as u64
}

/// The state that the front of `s` records, if `s` is long enough to hold a
/// whole record (bytes after the record are ignored).
pub open spec fn record_parse(s: Seq<u8>) -> Option<FilterState> {
    if s.len() < 8 {
        None
    } else {
        let n: int = le_value(s.subrange(0, 8)) as int;
        if s.len() < 8 + n + 36 {
            None
        } else {
            let t: int = 8 + n;
            Some(
                (
                    s.subrange(8, t),
                    le_value(s.subrange(t, t + 4)) as u32,
                    (
                        (word_at(s, t + 4), word_at(s, t + 12)),
                        (word_at(s, t + 20), word_at(s, t + 28)),
                    ),
                ),
            )
        }
    }
}

/// A checkpoint's content as plain values.
pub struct Snapshot {
    pub bitmap: Vec<u8>,
    pub k_num: u32,
    pub sip_keys: SipKeys,
}

impl View for Snapshot {
    type V = FilterState;

    open spec fn view(&self) -> FilterState {
        (self.bitmap@, self.k_num, self.sip_keys)
    }
}

/// Why checkpoint bytes could not be turned into a usable snapshot.
#[derive(Debug, PartialEq, Eq, Structural, Clone, Copy)]
pub enum CheckpointError {
    /// The bytes end before a whole record.
    Truncated,
    /// The record holds an empty bitmap, on which no key can be hashed.
    EmptyBitmap,
    /// The bitmap holds more bits than a `usize` counts.
    Oversized,
}

/// Whether a record's state can back a filter: a bitmap that is not empty
/// and whose bits a `usize` counts.
pub open spec fn usable_state(st: FilterState) -> bool {
    0 < st.0.len() && st.0.len() * 8 <= usize::MAX
}

/// Relies on `bincode::serialize` with its default options: integers at
/// fixed width, little-endian; a sequence after its length as a `u64`;
/// tuples and arrays field by field. Serializing these types cannot fail.
#[verifier::external_body]
fn bincode_serialize(bitmap: &Vec<u8>, k_num: u32, sip_keys: SipKeys) -> (r: Option<Vec<u8>>)
    ensures
        r.is_some(),
        r.unwrap()@ == record_bytes((bitmap@, k_num, sip_keys)),
{
    bincode::serialize(&(bitmap, k_num, [sip_keys.0, sip_keys.1])).ok()
}

/// Relies on `bincode::deserialize` with its default options, the inverse
/// layout of `bincode_serialize`; trailing bytes are allowed.
#[verifier::external_body]
fn bincode_deserialize(bytes: &[u8]) -> (r: Option<(Vec<u8>, u32, SipKeys)>)
    ensures
        r.is_some() == record_parse(bytes@).is_some(),
        r.is_some() ==> record_parse(bytes@) == Some((r.unwrap().0@, r.unwrap().1, r.unwrap().2)),
{
    bincode::deserialize::<(Vec<u8>, u32, [(u64, u64); 2])>(bytes).ok().map(
        |(b, k, s)| (b, k, (s[0], s[1])),
    )
}

/// Encodes a snapshot as a checkpoint record.
pub fn encode_checkpoint(snap: &Snapshot) -> (r: Vec<u8>)
    ensures
        r@ == record_bytes(snap@),
{
    let bytes = bincode_serialize(&snap.bitmap, snap.k_num, snap.sip_keys);
    match bytes {
        Some(b) => b,
        None => Vec::new(),
    }
}

/// Decodes a checkpoint record. It fails when the bytes hold no whole
/// record, when the record's bitmap is empty, or when the bitmap holds more
/// bits than a `usize` counts.
pub fn decode_checkpoint(bytes: &[u8]) -> (r: Result<Snapshot, CheckpointError>)
    ensures
        record_parse(bytes@).is_none() <==> r == Err::<Snapshot, CheckpointError>(
            CheckpointError::Truncated,
        ),
        (record_parse(bytes@).is_some() && record_parse(bytes@).unwrap().0.len() == 0) <==> r
            == Err::<Snapshot, CheckpointError>(CheckpointError::EmptyBitmap),
        (record_parse(bytes@).is_some() && record_parse(bytes@).unwrap().0.len() * 8 > usize::MAX)
            <==> r == Err::<Snapshot, CheckpointError>(CheckpointError::Oversized),
        r.is_ok() ==> record_parse(bytes@) == Some(r.unwrap()@) && usable_state(r.unwrap()@),
{
    match bincode_deserialize(bytes) {
        None => Err(CheckpointError::Truncated),
        Some((bitmap, k_num, sip_keys)) => {
            if bitmap.len() == 0 {
                Err(CheckpointError::EmptyBitmap)
            } else if bitmap.len() > usize::MAX / 8 {
                Err(CheckpointError::Oversized)
            } else {
                Ok(Snapshot { bitmap, k_num, sip_keys })
            }
        },
    }
}

/// Little-endian bytes read back give the number modulo `256^n`.
pub proof fn lemma_le_round_trip(x: nat, n: nat)
    ensures
        le_bytes(x, n).len() == n,
        le_value(le_bytes(x, n)) == x % pow256(n),
        pow256(n) > 0,
    decreases n,
{
    if n > 0 {
        let m = (n - 1) as nat;
        lemma_le_round_trip(x / 256, m);
        let s = le_bytes(x, n);
        assert(s.drop_first() =~= le_bytes(x / 256, m));
        lemma_breakdown(x as int, 256, pow256(m) as int);
    }
}

proof fn lemma_pow_values()
    ensures
        pow256(4) == 0x1_0000_0000,
        pow256(8) == 0x1_0000_0000_0000_0000,
{
    reveal_with_fuel(pow256, 9);
}

/// A checkpoint record read back gives the state it was written from, bit
/// for bit.
pub proof fn lemma_checkpoint_round_trip(st: FilterState)
    requires
        st.0.len() <= u64::MAX,
    ensures
        record_parse(record_bytes(st)) == Some(st),
{
    let n: int = st.0.len() as int;
    let s = record_bytes(st);
    lemma_pow_values();
    lemma_le_round_trip(st.0.len(), 8);
    lemma_le_round_trip(st.1 as nat, 4);
    lemma_le_round_trip(st.2.0.0 as nat, 8);
    lemma_le_round_trip(st.2.0.1 as nat, 8);
    lemma_le_round_trip(st.2.1.0 as nat, 8);
    lemma_le_round_trip(st.2.1.1 as nat, 8);
    let t: int = 8 + n;
    assert(s.subrange(0, 8) =~= le_bytes(st.0.len(), 8));
    assert(s.subrange(8, t) =~= st.0);
    assert(s.subrange(t, t + 4) =~= le_bytes(st.1 as nat, 4));
    assert(s.subrange(t + 4, t + 12) =~= le_bytes(st.2.0.0 as nat, 8));
    assert(s.subrange(t + 12, t + 20) =~= le_bytes(st.2.0.1 as nat, 8));
    assert(s.subrange(t + 20, t + 28) =~= le_bytes(st.2.1.0 as nat, 8));
    assert(s.subrange(t + 28, t + 36) =~= le_bytes(st.2.1.1 as nat, 8));
}

} // verus!
