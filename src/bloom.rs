//! The in-memory membership filter, held in `bloomfilter::Bloom<u64>`.
use bloomfilter::Bloom;
use crate::checkpoint::{word_at, FilterState};
use vstd::prelude::*;

verus! {

/// The two SipHash key pairs that define a filter's hash functions.
pub type SipKeys = ((u64, u64), (u64, u64));

#[verifier::external_type_specification]
#[verifier::external_body]
#[verifier::reject_recursive_types(T)]
pub struct ExBloom<T: ?Sized>(Bloom<T>);

/// The bytes of the filter's bitmap, eight bits per byte.
pub uninterp spec fn bloom_bitmap(b: Bloom<u64>) -> Seq<u8>;

/// The number of bits the filter hashes into.
pub uninterp spec fn bloom_bits(b: Bloom<u64>) -> u64;

/// The number of hash functions the filter derives from each key.
pub uninterp spec fn bloom_hashes(b: Bloom<u64>) -> u32;

/// The SipHash keys the filter was built with.
pub uninterp spec fn bloom_sip_keys(b: Bloom<u64>) -> SipKeys;

/// The bit offsets that a filter of `bits` bits with `k_num` hash functions
/// and these SipHash keys derives from `key`.
pub uninterp spec fn bloom_positions(bits: u64, k_num: u32, sip_keys: SipKeys, key: u64) -> Set<int>;

/// The hash count chosen for `bits` bits and `items` expected keys.
pub uninterp spec fn bloom_optimal_k(bits: u64, items: usize) -> u32;

/// The weight of bit `b` of a byte, most significant bit first.
pub open spec fn bit_weight(b: int) -> u8 {
    if b == 0 {
        128
    } else if b == 1 {
        64
    } else if b == 2 {
        32
    } else if b == 3 {
        16
    } else if b == 4 {
        8
    } else if b == 5 {
        4
    } else if b == 6 {
        2
    } else {
        1
    }
}

/// Whether bit `i` of the bitmap is set; bit `i` lives in byte `i / 8`.
pub open spec fn bit_at(bitmap: Seq<u8>, i: int) -> bool {
    0 <= i < bitmap.len() * 8 && bitmap[i / 8] & bit_weight(i % 8) != 0
}

/// The bits of byte `j` that the offsets `ps` name.
pub open spec fn byte_mask(ps: Set<int>, j: int) -> u8 {
    (if ps.contains(8 * j) { 128u8 } else { 0u8 }) | (if ps.contains(8 * j + 1) { 64u8 } else { 0u8 })
        | (if ps.contains(8 * j + 2) { 32u8 } else { 0u8 }) | (if ps.contains(8 * j + 3) { 16u8 } else { 0u8 })
        | (if ps.contains(8 * j + 4) { 8u8 } else { 0u8 }) | (if ps.contains(8 * j + 5) { 4u8 } else { 0u8 })
        | (if ps.contains(8 * j + 6) { 2u8 } else { 0u8 }) | (if ps.contains(8 * j + 7) { 1u8 } else { 0u8 })
}

/// The bitmap with the bits at the offsets `ps` set.
pub open spec fn set_positions(bitmap: Seq<u8>, ps: Set<int>) -> Seq<u8> {
    Seq::new(bitmap.len(), |j: int| bitmap[j] | byte_mask(ps, j))
}

/// The offsets `key` hashes to in a filter whose bitmap is all in use.
pub open spec fn key_positions(bitmap: Seq<u8>, k_num: u32, sip_keys: SipKeys, key: u64) -> Set<int> {
    bloom_positions((bitmap.len() * 8) as u64, k_num, sip_keys, key)
}

/// What a membership test answers for `key`: whether every bit it hashes to
/// is set.
pub open spec fn bloom_check_of(bitmap: Seq<u8>, k_num: u32, sip_keys: SipKeys, key: u64) -> bool {
    forall|p: int| #[trigger] key_positions(bitmap, k_num, sip_keys, key).contains(p) ==> bit_at(bitmap, p)
}

/// The state after setting `key`: its bits set, geometry and keys kept.
pub open spec fn set_key(st: FilterState, key: u64) -> FilterState {
    (set_positions(st.0, key_positions(st.0, st.1, st.2, key)), st.1, st.2)
}

/// The state after setting `keys` in order.
pub open spec fn replay(st: FilterState, keys: Seq<u64>) -> FilterState
    decreases keys.len(),
{
    if keys.len() == 0 {
        st
    } else {
        set_key(replay(st, keys.drop_last()), keys.last())
    }
}

/// The SipHash keys drawn from a seed: little-endian words of its two
/// halves.
pub open spec fn seed_keys(seed: Seq<u8>) -> SipKeys {
    ((word_at(seed, 0), word_at(seed, 8)), (word_at(seed, 16), word_at(seed, 24)))
}

/// A bitmap of `n` bytes with no bit set.
pub open spec fn zero_bitmap(n: nat) -> Seq<u8> {
    Seq::new(n, |i: int| 0u8)
}

/// The state of the filter `b`.
pub open spec fn bloom_state(b: Bloom<u64>) -> FilterState {
    (bloom_bitmap(b), bloom_hashes(b), bloom_sip_keys(b))
}

/// The answer of the membership test for `key` on the filter `b`.
pub open spec fn bloom_holds(b: Bloom<u64>, key: u64) -> bool {
    bloom_check_of(bloom_bitmap(b), bloom_hashes(b), bloom_sip_keys(b), key)
}

/// Relies on `Bloom::new_with_seed`: a zeroed bitmap of `n_bytes` bytes, all
/// of whose bits are hashed into, a hash count chosen for the sizes (at least
/// one), and SipHash keys read from the seed's halves. It asserts that both
/// sizes are positive and that the bit count fits in a `usize`.
#[verifier::external_body]
pub(crate) fn bloom_new_with_seed(n_bytes: usize, expected_entries: usize, seed: [u8; 32]) -> (r: Bloom<u64>)
    requires
        n_bytes > 0,
        expected_entries > 0,
        n_bytes * 8 <= usize::MAX,
    ensures
        bloom_bitmap(r) == zero_bitmap(n_bytes as nat),
        bloom_bits(r) == n_bytes * 8,
        bloom_hashes(r) == bloom_optimal_k((n_bytes * 8) as u64, expected_entries),
        bloom_hashes(r) >= 1,
        bloom_sip_keys(r) == seed_keys(seed@),
        forall|key: u64| !bloom_holds(r, key),
{
    Bloom::new_with_seed(n_bytes, expected_entries, &seed)
}

/// Relies on `Bloom::from_existing`: the filter takes the given bitmap, bit
/// count, hash count and keys as they are. The bit vector it builds must
/// count its bits in a `usize`.
#[verifier::external_body]
pub(crate) fn bloom_from_existing(bitmap: &[u8], bitmap_bits: u64, k_num: u32, sip_keys: SipKeys) -> (r: Bloom<u64>)
    requires
        bitmap_bits == bitmap@.len() * 8,
        bitmap@.len() * 8 <= usize::MAX,
    ensures
        bloom_bitmap(r) == bitmap@,
        bloom_bits(r) == bitmap_bits,
        bloom_hashes(r) == k_num,
        bloom_sip_keys(r) == sip_keys,
{
    Bloom::from_existing(bitmap, bitmap_bits, k_num, [sip_keys.0, sip_keys.1])
}

/// Relies on `Bloom::set`: it sets the bit at each offset derived from
/// `key`, each below the bit count, and changes nothing else.
#[verifier::external_body]
pub(crate) fn bloom_set(b: &mut Bloom<u64>, key: u64)
    requires
        bloom_bits(*old(b)) > 0,
        bloom_bits(*old(b)) == bloom_bitmap(*old(b)).len() * 8,
    ensures
        bloom_bitmap(*final(b)) == set_positions(
            bloom_bitmap(*old(b)),
            bloom_positions(bloom_bits(*old(b)), bloom_hashes(*old(b)), bloom_sip_keys(*old(b)), key),
        ),
        forall|p: int| #[trigger] bloom_positions(bloom_bits(*old(b)), bloom_hashes(*old(b)), bloom_sip_keys(*old(b)), key).contains(p)
            ==> 0 <= p < bloom_bits(*final(b)),
        bloom_bits(*final(b)) == bloom_bits(*old(b)),
        bloom_hashes(*final(b)) == bloom_hashes(*old(b)),
        bloom_sip_keys(*final(b)) == bloom_sip_keys(*old(b)),
{
    b.set(&key)
}

/// Relies on `Bloom::check`: whether the bit at every offset derived from
/// `key` is set.
#[verifier::external_body]
pub(crate) fn bloom_check(b: &Bloom<u64>, key: u64) -> (r: bool)
    requires
        bloom_bits(*b) > 0,
        bloom_bits(*b) == bloom_bitmap(*b).len() * 8,
    ensures
        r == (forall|p: int| #[trigger] bloom_positions(bloom_bits(*b), bloom_hashes(*b), bloom_sip_keys(*b), key).contains(p)
            ==> bit_at(bloom_bitmap(*b), p)),
{
    b.check(&key)
}

/// Relies on `Bloom::bitmap`: the bitmap's bytes.
#[verifier::external_body]
pub(crate) fn bloom_bitmap_bytes(b: &Bloom<u64>) -> (r: Vec<u8>)
    ensures
        r@ == bloom_bitmap(*b),
{
    b.bitmap()
}

/// Relies on `Bloom::number_of_hash_functions`: the hash count.
#[verifier::external_body]
pub(crate) fn bloom_number_of_hashes(b: &Bloom<u64>) -> (r: u32)
    ensures
        r == bloom_hashes(*b),
{
    b.number_of_hash_functions()
}

/// Relies on `Bloom::sip_keys`: the SipHash keys.
#[verifier::external_body]
pub(crate) fn bloom_keys(b: &Bloom<u64>) -> (r: SipKeys)
    ensures
        r == bloom_sip_keys(*b),
{
    let keys = b.sip_keys();
    (keys[0], keys[1])
}

proof fn lemma_or_keeps_bit(x: u8, m: u8, w: u8)
    ensures
        x & w != 0 ==> (x | m) & w != 0,
        m & w != 0 ==> (x | m) & w != 0,
{
    assert(x & w != 0 ==> (x | m) & w != 0) by (bit_vector);
    assert(m & w != 0 ==> (x | m) & w != 0) by (bit_vector);
}

proof fn lemma_mask_has_bit(ps: Set<int>, j: int, b: int)
    requires
        0 <= b < 8,
        ps.contains(8 * j + b),
    ensures
        byte_mask(ps, j) & bit_weight(b) != 0,
{
    let m0: u8 = if ps.contains(8 * j) { 128u8 } else { 0u8 };
    let m1: u8 = if ps.contains(8 * j + 1) { 64u8 } else { 0u8 };
    let m2: u8 = if ps.contains(8 * j + 2) { 32u8 } else { 0u8 };
    let m3: u8 = if ps.contains(8 * j + 3) { 16u8 } else { 0u8 };
    let m4: u8 = if ps.contains(8 * j + 4) { 8u8 } else { 0u8 };
    let m5: u8 = if ps.contains(8 * j + 5) { 4u8 } else { 0u8 };
    let m6: u8 = if ps.contains(8 * j + 6) { 2u8 } else { 0u8 };
    let m7: u8 = if ps.contains(8 * j + 7) { 1u8 } else { 0u8 };
    assert(byte_mask(ps, j) == m0 | m1 | m2 | m3 | m4 | m5 | m6 | m7);
    let w = bit_weight(b);
    assert((w == 128 && m0 == 128) || (w == 64 && m1 == 64) || (w == 32 && m2 == 32) || (w == 16 && m3
        == 16) || (w == 8 && m4 == 8) || (w == 4 && m5 == 4) || (w == 2 && m6 == 2) || (w == 1 && m7 == 1));
    assert(((w == 128 && m0 == 128) || (w == 64 && m1 == 64) || (w == 32 && m2 == 32) || (w == 16 && m3
        == 16) || (w == 8 && m4 == 8) || (w == 4 && m5 == 4) || (w == 2 && m6 == 2) || (w == 1 && m7 == 1))
        ==> (m0 | m1 | m2 | m3 | m4 | m5 | m6 | m7) & w != 0) by (bit_vector);
}

/// Setting bits clears none: every bit set before stays set.
pub proof fn lemma_set_positions_monotone(bitmap: Seq<u8>, ps: Set<int>)
    ensures
        set_positions(bitmap, ps).len() == bitmap.len(),
        forall|i: int| bit_at(bitmap, i) ==> #[trigger] bit_at(set_positions(bitmap, ps), i),
{
    assert forall|i: int| bit_at(bitmap, i) implies #[trigger] bit_at(set_positions(bitmap, ps), i) by {
        lemma_or_keeps_bit(bitmap[i / 8], byte_mask(ps, i / 8), bit_weight(i % 8));
    }
}

/// Every offset in `ps` that lies in the bitmap is set afterwards.
pub proof fn lemma_set_positions_sets(bitmap: Seq<u8>, ps: Set<int>, p: int)
    requires
        ps.contains(p),
        0 <= p < bitmap.len() * 8,
    ensures
        bit_at(set_positions(bitmap, ps), p),
{
    let j = p / 8;
    let b = p % 8;
    assert(p == 8 * j + b);
    lemma_mask_has_bit(ps, j, b);
    lemma_or_keeps_bit(bitmap[j], byte_mask(ps, j), bit_weight(b));
}

/// Setting a key leaves the key present, keeps every key that was present,
/// and clears no bit.
pub proof fn lemma_set_key_effect(st: FilterState, key: u64)
    requires
        forall|p: int| #[trigger] key_positions(st.0, st.1, st.2, key).contains(p) ==> 0 <= p < st.0.len() * 8,
    ensures
        bloom_check_of(set_key(st, key).0, st.1, st.2, key),
        forall|i: int| bit_at(st.0, i) ==> #[trigger] bit_at(set_key(st, key).0, i),
        forall|q: u64| bloom_check_of(st.0, st.1, st.2, q) ==> #[trigger] bloom_check_of(set_key(st, key).0, st.1, st.2, q),
{
    let ps = key_positions(st.0, st.1, st.2, key);
    let n = set_key(st, key).0;
    lemma_set_positions_monotone(st.0, ps);
    assert(n.len() == st.0.len());
    assert forall|p: int| #[trigger] key_positions(n, st.1, st.2, key).contains(p) implies bit_at(n, p) by {
        lemma_set_positions_sets(st.0, ps, p);
    }
    assert forall|q: u64| bloom_check_of(st.0, st.1, st.2, q) implies #[trigger] bloom_check_of(n, st.1, st.2, q) by {
        assert forall|p: int| #[trigger] key_positions(n, st.1, st.2, q).contains(p) implies bit_at(n, p) by {
            assert(key_positions(st.0, st.1, st.2, q).contains(p));
        }
    }
}

/// Setting a key twice gives the bitmap that setting it once gives.
pub proof fn lemma_set_key_idempotent(st: FilterState, key: u64)
    ensures
        set_key(set_key(st, key), key) == set_key(st, key),
{
    let ps = key_positions(st.0, st.1, st.2, key);
    let once = set_key(st, key);
    assert(key_positions(once.0, st.1, st.2, key) == ps);
    assert forall|j: int| 0 <= j < st.0.len() implies (#[trigger] set_key(once, key).0[j]) == once.0[j] by {
        let x = st.0[j];
        let m = byte_mask(ps, j);
        assert((x | m) | m == x | m) by (bit_vector);
    }
    assert(set_key(once, key).0 =~= once.0);
}

/// The bitmap does not depend on the order in which two keys are set.
pub proof fn lemma_set_key_commutes(st: FilterState, a: u64, b: u64)
    ensures
        set_key(set_key(st, a), b) == set_key(set_key(st, b), a),
{
    let pa = key_positions(st.0, st.1, st.2, a);
    let pb = key_positions(st.0, st.1, st.2, b);
    assert(key_positions(set_key(st, a).0, st.1, st.2, b) == pb);
    assert(key_positions(set_key(st, b).0, st.1, st.2, a) == pa);
    assert forall|j: int| 0 <= j < st.0.len() implies (#[trigger] set_key(set_key(st, a), b).0[j]) == set_key(
        set_key(st, b),
        a,
    ).0[j] by {
        let x = st.0[j];
        let ma = byte_mask(pa, j);
        let mb = byte_mask(pb, j);
        assert((x | ma) | mb == (x | mb) | ma) by (bit_vector);
    }
    assert(set_key(set_key(st, a), b).0 =~= set_key(set_key(st, b), a).0);
}

} // verus!
