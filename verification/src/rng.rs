//! A tiny, deterministic pseudo-random number generator (xorshift64*).
//!
//! The simulation must be bit-reproducible across platforms and builds given the same seed; a
//! small xorshift64* generator is enough for particle-lattice jitter and other non-critical
//! randomness.

use vstd::prelude::*;

verus! {

/// The state a seed of `0` is remapped to: xorshift generators cannot leave the all-zero state.
pub const ZERO_SEED_STATE: u64 = 0x9E37_79B9_7F4A_7C15;

/// The odd multiplier of the xorshift64* output scrambler.
pub const OUTPUT_MULTIPLIER: u64 = 0x2545_F491_4F6C_DD1D;

/// The state a generator created from `seed` starts in.
pub open spec fn seeded_state(seed: u64) -> u64 {
    if seed == 0 {
        ZERO_SEED_STATE
    } else {
        seed
    }
}

/// One xorshift64 state transition: `x ^= x << 13; x ^= x >> 7; x ^= x << 17`.
pub open spec fn xorshift_step(x: u64) -> u64 {
    let a = x ^ (x << 13u64);
    let b = a ^ (a >> 7u64);
    b ^ (b << 17u64)
}

/// The value returned for a freshly advanced state: the state times [`OUTPUT_MULTIPLIER`],
/// modulo `2^64`.
pub open spec fn scrambled_output(x: u64) -> u64 {
    ((x as nat * OUTPUT_MULTIPLIER as nat) % 0x1_0000_0000_0000_0000nat) as u64
}

/// xorshift64* PRNG. Not cryptographically secure; deterministic given the same seed.
#[derive(Debug)]
pub struct Rng {
    state: u64,
}

impl View for Rng {
    type V = u64;

    closed spec fn view(&self) -> u64 {
        self.state
    }
}

impl Clone for Rng {
    /// A copy of the generator, in the same state: it yields the same sequence from here on.
    fn clone(&self) -> (c: Self)
        ensures
            c@ == self@,
    {
        proof {
            use_type_invariant(self);
        }
        Rng { state: self.state }
    }
}

impl Rng {
    #[verifier::type_invariant]
    spec fn state_is_nonzero(self) -> bool {
        self.state != 0
    }

    /// Creates a new generator from a seed. A seed of `0` is remapped to a fixed non-zero value,
    /// since xorshift generators cannot recover from an all-zero state.
    pub fn new(seed: u64) -> (rng: Self)
        ensures
            rng@ == seeded_state(seed),
            rng@ != 0,
    {
        Self { state: if seed == 0 { ZERO_SEED_STATE } else { seed } }
    }

    /// Returns the next raw `u64` in the sequence.
    pub fn next_u64(&mut self) -> (r: u64)
        ensures
            final(self)@ == xorshift_step(old(self)@),
            r == scrambled_output(final(self)@),
            final(self)@ != 0,
            r != 0,
    {
        proof {
            use_type_invariant(&*self);
        }
        let mut x = self.state;
        x ^= x << 13u64;
        x ^= x >> 7u64;
        x ^= x << 17u64;
        proof {
            lemma_xorshift_step_nonzero(self.state);
            lemma_scrambled_output_nonzero(x);
        }
        self.state = x;
        x.wrapping_mul(OUTPUT_MULTIPLIER)
    }
}

/// A xorshift step never maps a non-zero state to zero (each of its three shifts-and-xors is
/// invertible), so a generator never falls into the absorbing all-zero state.
pub proof fn lemma_xorshift_step_nonzero(x: u64)
    requires
        x != 0,
    ensures
        xorshift_step(x) != 0,
{
    let a = x ^ (x << 13u64);
    let b = a ^ (a >> 7u64);
    assert(x != 0 ==> x ^ (x << 13u64) != 0) by (bit_vector);
    assert(a != 0 ==> a ^ (a >> 7u64) != 0) by (bit_vector);
    assert(b != 0 ==> b ^ (b << 17u64) != 0) by (bit_vector);
}

/// Multiplying by the odd [`OUTPUT_MULTIPLIER`] modulo `2^64` is a bijection, so a non-zero
/// state never yields a zero output.
pub proof fn lemma_scrambled_output_nonzero(x: u64)
    requires
        x != 0,
    ensures
        scrambled_output(x) != 0,
{
    assert(x != 0 ==> ((x as nat * 0x2545_F491_4F6C_DD1Dnat) % 0x1_0000_0000_0000_0000nat) != 0)
        by (bit_vector);
}

/// The state step is the xorshift64 triple (13, 7, 17) on every state alike: shift left by 13
/// and xor, shift right by 7 and xor, shift left by 17 and xor.
pub proof fn lemma_xorshift_step_is_the_13_7_17_triple(x: u64)
    ensures
        ({
            let a = x ^ (x << 13u64);
            let b = a ^ (a >> 7u64);
            xorshift_step(x) == b ^ (b << 17u64)
        }),
{
}

/// The state step is linear over GF(2): the step of `x ^ y` is the xor of the steps of `x` and
/// `y`, and the zero state steps to itself. Each of its three shift-and-xor stages is linear, so
/// the whole step acts on every bit of the state in the same way, whatever the other bits are.
pub proof fn lemma_xorshift_step_linear(x: u64, y: u64)
    ensures
        xorshift_step(x ^ y) == xorshift_step(x) ^ xorshift_step(y),
        xorshift_step(0) == 0,
{
    let ax = x ^ (x << 13u64);
    let ay = y ^ (y << 13u64);
    let axy = (x ^ y) ^ ((x ^ y) << 13u64);
    assert(axy == ax ^ ay) by (bit_vector)
        requires
            ax == x ^ (x << 13u64),
            ay == y ^ (y << 13u64),
            axy == (x ^ y) ^ ((x ^ y) << 13u64),
    ;
    let bx = ax ^ (ax >> 7u64);
    let b_y = ay ^ (ay >> 7u64);
    let bxy = axy ^ (axy >> 7u64);
    assert(bxy == bx ^ b_y) by (bit_vector)
        requires
            axy == ax ^ ay,
            bx == ax ^ (ax >> 7u64),
            b_y == ay ^ (ay >> 7u64),
            bxy == axy ^ (axy >> 7u64),
    ;
    let cx = bx ^ (bx << 17u64);
    let cy = b_y ^ (b_y << 17u64);
    let cxy = bxy ^ (bxy << 17u64);
    assert(cxy == cx ^ cy) by (bit_vector)
        requires
            bxy == bx ^ b_y,
            cx == bx ^ (bx << 17u64),
            cy == b_y ^ (b_y << 17u64),
            cxy == bxy ^ (bxy << 17u64),
    ;
    assert(((0u64 ^ (0u64 << 13u64)) ^ ((0u64 ^ (0u64 << 13u64)) >> 7u64)) == 0u64) by (bit_vector);
    assert(0u64 ^ (0u64 << 17u64) == 0u64) by (bit_vector);
}

/// The output is the advanced state times the odd multiplier `0x2545_F491_4F6C_DD1D`, modulo
/// `2^64`; in particular it has the parity of the state.
pub proof fn lemma_scrambled_output_is_the_product(x: u64)
    ensures
        scrambled_output(x) as nat == (x as nat * 0x2545_F491_4F6C_DD1Dnat) % 0x1_0000_0000_0000_0000nat,
        scrambled_output(x) % 2 == x % 2,
{
    let p = x as nat * 0x2545_F491_4F6C_DD1Dnat;
    assert(p % 0x1_0000_0000_0000_0000nat % 2 == x % 2) by (nonlinear_arith)
        requires
            p == x as nat * 0x2545_F491_4F6C_DD1Dnat,
    ;
}

/// Seeding keeps every non-zero seed as the state and sends the zero seed to
/// `0x9E37_79B9_7F4A_7C15`.
pub proof fn lemma_seeded_state_values(seed: u64)
    ensures
        seed != 0 ==> seeded_state(seed) == seed,
        seed == 0 ==> seeded_state(seed) == 0x9E37_79B9_7F4A_7C15u64,
{
}

} // verus!
