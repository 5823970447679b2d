//! The buffer the floor is measured over: bytes from a 64-bit LCG rather than
//! zeros, so that no page of it can be a shared zero page.

use vstd::prelude::*;

verus! {

/// The LCG's multiplier.
pub const LCG_MULTIPLIER: u64 = 6_364_136_223_846_793_005u64;

/// The LCG's increment.
pub const LCG_INCREMENT: u64 = 1_442_695_040_888_963_407u64;

/// The LCG's state before its first step.
pub const LCG_SEED: u64 = 0x2545_F491_4F6C_DD1Du64;

/// One LCG step: `state * multiplier + increment`, modulo `2^64`.
pub open spec fn lcg_next(state: u64) -> u64 {
    ((LCG_MULTIPLIER as nat * state as nat + LCG_INCREMENT as nat) % 0x1_0000_0000_0000_0000nat) as u64
}

/// The LCG state after `k` steps from the seed.
pub open spec fn lcg_state(k: nat) -> u64
    decreases k,
{
    if k == 0 {
        LCG_SEED
    } else {
        lcg_next(lcg_state((k - 1) as nat))
    }
}

/// `256^j`.
pub open spec fn byte_weight(j: nat) -> nat
    decreases j,
{
    if j == 0 {
        1
    } else {
        256 * byte_weight((j - 1) as nat)
    }
}

/// Byte `j` (0 = least significant) of `x`.
pub open spec fn le_byte(x: u64, j: nat) -> u8 {
    ((x as nat / byte_weight(j)) % 256) as u8
}

/// Byte `i` of a buffer from `make_buffer`: each run of 8 bytes is the next
/// LCG state in little-endian order, the first run holding the state after
/// one step.
pub open spec fn buffer_byte(i: nat) -> u8 {
    le_byte(lcg_state(i / 8 + 1), i % 8)
}

fn lcg_step(state: u64) -> (next: u64)
    ensures
        next == lcg_next(state),
{
    let m = state.wrapping_mul(LCG_MULTIPLIER);
    proof {
        let r = 0x1_0000_0000_0000_0000int;
        vstd::arithmetic::div_mod::lemma_add_mod_noop(
            LCG_MULTIPLIER as int * state as int,
            LCG_INCREMENT as int,
            r,
        );
        vstd::arithmetic::div_mod::lemma_small_mod(LCG_INCREMENT as nat, r as nat);
        vstd::arithmetic::mul::lemma_mul_is_commutative(state as int, LCG_MULTIPLIER as int);
    }
    m.wrapping_add(LCG_INCREMENT)
}

proof fn lemma_byte_weight_positive(j: nat)
    ensures
        byte_weight(j) > 0,
    decreases j,
{
    if j > 0 {
        lemma_byte_weight_positive((j - 1) as nat);
    }
}

/// Appends the low bytes of `x`, least significant first, until `v` holds
/// eight more bytes or `limit` bytes in all.
fn push_le_bytes(v: &mut Vec<u8>, x: u64, limit: usize)
    requires
        old(v)@.len() < limit,
    ensures
        final(v)@.len() == if old(v)@.len() + 8 <= limit {
            old(v)@.len() + 8
        } else {
            limit as nat
        },
        forall|i: int| 0 <= i < old(v)@.len() ==> final(v)@[i] == old(v)@[i],
        forall|j: int|
            0 <= j < final(v)@.len() - old(v)@.len() ==> #[trigger] final(v)@[old(v)@.len() + j]
                == le_byte(x, j as nat),
{
    let ghost start = v@.len();
    let mut w: u64 = x;
    let mut j: usize = 0;
    assert(byte_weight(0) == 1);
    while j < 8 && v.len() < limit
        invariant
            j <= 8,
            v@.len() == start + j,
            v@.len() <= limit,
            w as nat == x as nat / byte_weight(j as nat),
            forall|i: int| 0 <= i < start ==> v@[i] == old(v)@[i],
            forall|i: int| 0 <= i < j ==> #[trigger] v@[start + i] == le_byte(x, i as nat),
        decreases 8 - j,
    {
        proof {
            lemma_byte_weight_positive(j as nat);
            vstd::arithmetic::div_mod::lemma_div_denominator(
                x as int,
                byte_weight(j as nat) as int,
                256,
            );
            vstd::arithmetic::mul::lemma_mul_is_commutative(byte_weight(j as nat) as int, 256);
        }
        v.push((w % 256) as u8);
        w = w / 256;
        j = j + 1;
    }
}

/// A buffer of `bytes` bytes filled from the LCG: each 8-byte run is the next
/// state, little-endian; a final run shorter than 8 bytes takes the low bytes
/// of its state.
pub fn make_buffer(bytes: usize) -> (v: Vec<u8>)
    ensures
        v@.len() == bytes,
        forall|i: int| 0 <= i < bytes ==> v@[i] == buffer_byte(i as nat),
{
    let mut v: Vec<u8> = Vec::with_capacity(bytes);
    let mut state: u64 = LCG_SEED;
    let ghost mut k: nat = 0;
    while v.len() < bytes
        invariant
            v@.len() <= bytes,
            v@.len() == 8 * k || v@.len() == bytes,
            state == lcg_state(k),
            forall|i: int| 0 <= i < v@.len() ==> v@[i] == buffer_byte(i as nat),
        decreases bytes - v@.len(),
    {
        let ghost old_v = v@;
        state = lcg_step(state);
        proof {
            k = k + 1;
        }
        push_le_bytes(&mut v, state, bytes);
        assert forall|i: int| 0 <= i < v@.len() implies v@[i] == buffer_byte(i as nat) by {
            if i >= old_v.len() {
                let j = i - old_v.len();
                assert(v@[old_v.len() + j] == le_byte(state, j as nat));
                assert(i / 8 == k - 1 && i % 8 == j) by {
                    vstd::arithmetic::div_mod::lemma_fundamental_div_mod_converse(
                        i,
                        8,
                        k - 1,
                        j,
                    );
                }
            }
        }
    }
    v
}

} // verus!
