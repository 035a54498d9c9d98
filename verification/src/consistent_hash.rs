//! Routing of keys to shards: a jump consistent hash over a 64-bit hash of
//! the key.
use vstd::prelude::*;

verus! {

/// The next state of the generator that drives the jumps.
#[verifier::opaque]
pub open spec fn next_state(state: u64) -> u64 {
    state.wrapping_mul(2862933555777941757u64).wrapping_add(1u64)
}

/// The bucket that the walk jumps to from bucket `b` in generator state
/// `state`: `(b + 1) * 2^31 / ((state >> 33) + 1)`, rounded down.
pub open spec fn next_jump(b: int, state: u64) -> int {
    ((b + 1) * 0x8000_0000) / (((state >> 33u64) as int) + 1)
}

/// The walk of the jump consistent hash: from candidate `j`, reached from
/// bucket `b` in generator state `state`, to the last bucket below `buckets`.
pub open spec fn jump_from(state: u64, b: int, j: int, buckets: int) -> int
    decreases buckets - j,
{
    if j >= buckets || j < 0 {
        b
    } else {
        let s = next_state(state);
        let nj = next_jump(j, s);
        if nj <= j || nj >= buckets {
            j
        } else {
            jump_from(s, j, nj, buckets)
        }
    }
}

/// The bucket, below `buckets`, that the jump consistent hash gives to `key`.
pub open spec fn jump_hash(key: u64, buckets: u32) -> int {
    jump_from(key, -1, 0, buckets as int)
}

/// Each jump goes strictly upward and stays within 63 bits.
pub proof fn lemma_next_jump(b: int, state: u64)
    requires
        0 <= b < 0x1_0000_0000,
    ensures
        b < next_jump(b, state) <= (b + 1) * 0x8000_0000,
{
    reveal(next_jump);
    let d = ((state >> 33u64) as int) + 1;
    assert(state >> 33u64 < 0x8000_0000u64) by (bit_vector);
    let n = (b + 1) * 0x8000_0000;
    assert(1 <= d <= 0x8000_0000);
    assert(n / d >= b + 1) by (nonlinear_arith)
        requires
            n == (b + 1) * 0x8000_0000,
            1 <= d <= 0x8000_0000,
            b >= 0,
    ;
    assert(n / d <= n) by (nonlinear_arith)
        requires
            n >= 0,
            d >= 1,
    ;
}

/// One step of the walk: the next generator state and the bucket jumped to.
fn jump_step(b: u64, state: u64) -> (r: (u64, u64))
    requires
        b < 0x1_0000_0000,
    ensures
        r.0 == next_state(state),
        r.1 == next_jump(b as int, r.0),
        b < r.1,
{
    let s = state.wrapping_mul(2862933555777941757u64).wrapping_add(1u64);
    assert(s == next_state(state)) by {
        reveal(next_state);
    }
    proof {
        lemma_next_jump(b as int, s);
    }
    assert(s >> 33u64 < 0x8000_0000u64) by (bit_vector);
    let d: u64 = (s >> 33u64) + 1;
    assert((b + 1) * 0x8000_0000 <= 0x1_0000_0000 * 0x8000_0000) by (nonlinear_arith)
        requires
            b < 0x1_0000_0000,
    ;
    let n: u64 = (b + 1) * 0x8000_0000u64;
    let j = n / d;
    assert(j == next_jump(b as int, s)) by {
        reveal(next_jump);
    }
    (s, j)
}

/// Maps `key` to a bucket below `buckets` such that, when the number of
/// buckets grows, a key either stays or moves to a new bucket.
pub fn jump_consistent_hash(key: u64, buckets: u32) -> (b: u32)
    requires
        buckets > 0,
    ensures
        b < buckets,
        b == jump_hash(key, buckets),
{
    let (mut state, mut j) = jump_step(0, key);
    let mut b: u64 = 0;
    while j < buckets as u64
        invariant
            buckets > 0,
            b < j,
            b < buckets,
            jump_hash(key, buckets) == (if j >= buckets {
                b as int
            } else {
                jump_from(state, b as int, j as int, buckets as int)
            }),
        decreases (if j < buckets { buckets - j } else { 0 }),
    {
        b = j;
        let (s, nj) = jump_step(b, state);
        state = s;
        j = nj;
    }
    b as u32
}

/// The 64-bit Fx hash of a key: `fxhash::hash64` on the byte vector. The hash
/// reads the bytes in words of the machine's byte order, so nothing is
/// claimed of the number that comes back.
#[verifier::external_body]
fn fx_hash64(key: &Vec<u8>) -> u64 {
    fxhash::hash64(key)
}

/// The shard, below `shards`, that owns `key` in this process: the bucket
/// that the jump consistent hash gives to the 64-bit Fx hash of the key.
/// Which number that hash is depends on the machine, so the shard is stated
/// as the bucket of some 64-bit number.
pub fn shard_of(key: &Vec<u8>, shards: u32) -> (s: usize)
    requires
        shards > 0,
    ensures
        s < shards,
        exists|hash: u64| s == #[trigger] jump_hash(hash, shards),
{
    let hash = fx_hash64(key);
    let bucket = jump_consistent_hash(hash, shards);
    assert(bucket == jump_hash(hash, shards));
    bucket as usize
}

} // verus!
