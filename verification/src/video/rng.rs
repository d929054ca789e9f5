//! Deterministic randomness, seeded per note: any frame can be drawn on its own.

use vstd::prelude::*;

verus! {

/// Step of the state.
pub const GOLDEN: u64 = 0x9E37_79B9_7F4A_7C15;

/// First multiplier of the scrambling.
pub const MIX_A: u64 = 0xBF58_476D_1CE4_E5B9;

/// Second multiplier of the scrambling.
pub const MIX_B: u64 = 0x94D0_49BB_1331_11EB;

/// A splitmix64 generator.
pub struct Rng {
    pub state: u64,
}

/// The state for a seed.
pub open spec fn seeded(seed: u64) -> u64 {
    seed.wrapping_mul(GOLDEN).wrapping_add(1)
}

/// The state after `state`.
pub open spec fn stepped(state: u64) -> u64 {
    state.wrapping_add(GOLDEN)
}

/// The scrambled state: splitmix64's output.
pub open spec fn scrambled(state: u64) -> u64 {
    let a = (state ^ (state >> 30)).wrapping_mul(MIX_A);
    let b = (a ^ (a >> 27)).wrapping_mul(MIX_B);
    b ^ (b >> 31)
}

impl Rng {
    pub fn new(seed: u64) -> (rng: Rng)
        ensures
            rng.state == seeded(seed),
    {
        Rng { state: seed.wrapping_mul(GOLDEN).wrapping_add(1) }
    }

    /// The next draw: the top 24 bits of the output, a fraction of 2^24.
    pub fn next(&mut self) -> (draw: u32)
        ensures
            final(self).state == stepped(old(self).state),
            draw == scrambled(stepped(old(self).state)) >> 40,
            draw < 0x100_0000,
    {
        self.state = self.state.wrapping_add(GOLDEN);
        let z: u64 = self.state;
        let a: u64 = (z ^ (z >> 30)).wrapping_mul(MIX_A);
        let b: u64 = (a ^ (a >> 27)).wrapping_mul(MIX_B);
        let out: u64 = b ^ (b >> 31);
        assert(out >> 40 < 0x100_0000) by (bit_vector);
        (out >> 40) as u32
    }
}

/// Seed of a note's shards.
pub fn shard_seed(note: u32, pitch: u8) -> (seed: u64)
    ensures
        seed == note * 0x2_0000 + pitch,
{
    let n: u64 = note as u64;
    let p: u64 = pitch as u64;
    assert(((n << 17) | p) == n * 0x2_0000 + p) by (bit_vector)
        requires
            n <= 0xffff_ffff,
            p <= 0xff,
    ;
    (n << 17) | p
}

/// Seed of emission number `k` of a held note's embers.
pub fn ember_seed(note: u32, k: u64) -> (seed: u64)
    ensures
        seed == (note as u64).wrapping_mul(1315423911) ^ k.wrapping_mul(2654435761),
{
    (note as u64).wrapping_mul(1315423911) ^ k.wrapping_mul(2654435761)
}

/// The emissions that can be seen, the first and the last: those from `oldest` on, none before
/// the onset, up to `newest`; `None` if there are none.
pub fn ember_range(oldest: i64, newest: i64) -> (range: Option<(u64, u64)>)
    ensures
        ({
            let first = if oldest > 0 { oldest as int } else { 0 };
            &&& newest < first ==> range is None
            &&& newest >= first ==> range == Some((first as u64, newest as u64))
        }),
{
    let first: i64 = if oldest > 0 {
        oldest
    } else {
        0
    };
    if newest < first {
        None
    } else {
        Some((first as u64, newest as u64))
    }
}

/// Different notes, or the same note at another pitch, have different shards.
pub proof fn law_shard_seeds_differ(note_a: u32, pitch_a: u8, note_b: u32, pitch_b: u8)
    requires
        note_a * 0x2_0000 + pitch_a == note_b * 0x2_0000 + pitch_b,
    ensures
        note_a == note_b,
        pitch_a == pitch_b,
{
}

/// The generator is splitmix64: seeds are spread by the golden ratio and stepped by it, modulo
/// 2^64, and a state is scrambled by two rounds of shifting and multiplying.
pub proof fn law_draws_are_splitmix(seed: u64)
    ensures
        seeded(seed) == (seed * 0x9E37_79B9_7F4A_7C15 + 1) % 0x1_0000_0000_0000_0000,
        stepped(seed) == (seed + 0x9E37_79B9_7F4A_7C15) % 0x1_0000_0000_0000_0000,
        ({
            let a = (seed ^ (seed >> 30)) * 0xBF58_476D_1CE4_E5B9 % 0x1_0000_0000_0000_0000;
            let a = a as u64;
            let b = (a ^ (a >> 27)) * 0x94D0_49BB_1331_11EB % 0x1_0000_0000_0000_0000;
            let b = b as u64;
            scrambled(seed) == b ^ (b >> 31)
        }),
{
}

} // verus!
