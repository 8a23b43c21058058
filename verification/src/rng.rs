//! SplitMix64, the small deterministic number source behind the bootstrap.

use vstd::prelude::*;

verus! {

/// What the state advances by at each draw.
pub const GAMMA: u64 = 0x9E37_79B9_7F4A_7C15;

pub const MIX_1: u64 = 0xBF58_476D_1CE4_E5B9;

pub const MIX_2: u64 = 0x94D0_49BB_1331_11EB;

/// The state after `draws` more draws.
pub open spec fn state_after(state: u64, draws: nat) -> u64
    decreases draws,
{
    if draws == 0 {
        state
    } else {
        state_after(state, (draws - 1) as nat).wrapping_add(GAMMA)
    }
}

/// The number drawn as the state becomes `state`.
pub open spec fn output(state: u64) -> u64 {
    let z1 = (state ^ (state >> 30)).wrapping_mul(MIX_1);
    let z2 = (z1 ^ (z1 >> 27)).wrapping_mul(MIX_2);
    z2 ^ (z2 >> 31)
}

/// Drawing `m` and then `n` numbers is drawing `m + n`.
pub proof fn lemma_state_after_adds(state: u64, m: nat, n: nat)
    ensures
        state_after(state_after(state, m), n) == state_after(state, m + n),
    decreases n,
{
    if n > 0 {
        lemma_state_after_adds(state, m, (n - 1) as nat);
    }
}

pub struct SplitMix64 {
    state: u64,
}

impl View for SplitMix64 {
    type V = u64;

    closed spec fn view(&self) -> u64 {
        self.state
    }
}

impl SplitMix64 {
    pub fn new(seed: u64) -> (r: Self)
        ensures
            r@ == seed,
    {
        SplitMix64 { state: seed }
    }

    pub fn next_u64(&mut self) -> (r: u64)
        ensures
            final(self)@ == state_after(old(self)@, 1),
            r == output(final(self)@),
    {
        proof {
            reveal_with_fuel(state_after, 2);
        }
        self.state = self.state.wrapping_add(GAMMA);
        let z: u64 = self.state;
        let z1: u64 = (z ^ (z >> 30)).wrapping_mul(MIX_1);
        let z2: u64 = (z1 ^ (z1 >> 27)).wrapping_mul(MIX_2);
        z2 ^ (z2 >> 31)
    }

    /// An index below `n`, by plain remainder: against a 64-bit range the
    /// bias is unmeasurably small.
    pub fn next_index(&mut self, n: usize) -> (r: usize)
        requires
            n >= 1,
        ensures
            final(self)@ == state_after(old(self)@, 1),
            r < n,
            r == output(final(self)@) as int % n as int,
    {
        (self.next_u64() % n as u64) as usize
    }
}

/// The inverse of `MIX_1` modulo two to the 64.
pub const UNMIX_1: u64 = 0x96DE_1B17_3F11_9089;

/// The inverse of `MIX_2` modulo two to the 64.
pub const UNMIX_2: u64 = 0x3196_42B2_D24D_8EC3;

/// Two to the 64.
pub open spec fn word() -> int {
    0x1_0000_0000_0000_0000
}

/// Multiplying by a factor that has an inverse loses nothing.
proof fn lemma_mul_cancels(x: u64, y: u64, c: u64, inverse: u64)
    requires
        (c * inverse) % word() == 1,
        x.wrapping_mul(c) == y.wrapping_mul(c),
    ensures
        x == y,
{
    lemma_unmul(x, c, inverse);
    lemma_unmul(y, c, inverse);
}

proof fn lemma_unmul(x: u64, c: u64, inverse: u64)
    requires
        (c * inverse) % word() == 1,
    ensures
        (x.wrapping_mul(c) as int * inverse as int) % word() == x,
{
    let (xi, ci, vi, m) = (x as int, c as int, inverse as int, word());
    vstd::arithmetic::div_mod::lemma_mul_mod_noop_left(xi * ci, vi, m);
    vstd::arithmetic::mul::lemma_mul_is_associative(xi, ci, vi);
    vstd::arithmetic::div_mod::lemma_mul_mod_noop_right(xi, ci * vi, m);
    assert(xi * 1 == xi);
    vstd::arithmetic::div_mod::lemma_small_mod(x as nat, m as nat);
}

/// Different states never give the same number.
pub proof fn lemma_output_injective(s: u64, t: u64)
    requires
        output(s) == output(t),
    ensures
        s == t,
{
    let a1 = (s ^ (s >> 30)).wrapping_mul(MIX_1);
    let b1 = (t ^ (t >> 30)).wrapping_mul(MIX_1);
    let a2 = (a1 ^ (a1 >> 27)).wrapping_mul(MIX_2);
    let b2 = (b1 ^ (b1 >> 27)).wrapping_mul(MIX_2);
    assert(a2 == b2) by (bit_vector)
        requires
            a2 ^ (a2 >> 31) == b2 ^ (b2 >> 31),
    ;
    lemma_mul_cancels(a1 ^ (a1 >> 27), b1 ^ (b1 >> 27), MIX_2, UNMIX_2);
    assert(a1 == b1) by (bit_vector)
        requires
            a1 ^ (a1 >> 27) == b1 ^ (b1 >> 27),
    ;
    lemma_mul_cancels(s ^ (s >> 30), t ^ (t >> 30), MIX_1, UNMIX_1);
    assert(s == t) by (bit_vector)
        requires
            s ^ (s >> 30) == t ^ (t >> 30),
    ;
}

/// Different seeds diverge at once and for good: no draw of the one is the draw
/// of the other in the same place.
pub proof fn law_different_seeds_diverge(seed1: u64, seed2: u64, draws: nat)
    requires
        seed1 != seed2,
    ensures
        state_after(seed1, draws) != state_after(seed2, draws),
        output(state_after(seed1, draws)) != output(state_after(seed2, draws)),
    decreases draws,
{
    if draws > 0 {
        law_different_seeds_diverge(seed1, seed2, (draws - 1) as nat);
    }
    if output(state_after(seed1, draws)) == output(state_after(seed2, draws)) {
        lemma_output_injective(state_after(seed1, draws), state_after(seed2, draws));
    }
}

/// The states advance evenly: each draw adds the same odd number, counted
/// modulo two to the 64, so that after any number of draws the state is the
/// first one plus that many times it.
pub proof fn law_states_advance_evenly(state: u64, draws: nat)
    ensures
        state_after(state, draws) as int == (state + draws * 0x9E37_79B9_7F4A_7C15)
            % 0x1_0000_0000_0000_0000,
    decreases draws,
{
    let (g, m) = (0x9E37_79B9_7F4A_7C15int, 0x1_0000_0000_0000_0000int);
    if draws > 0 {
        let fewer = (draws - 1) as nat;
        law_states_advance_evenly(state, fewer);
        let sum = state + fewer * g;
        vstd::arithmetic::div_mod::lemma_add_mod_noop(sum, g, m);
        vstd::arithmetic::div_mod::lemma_small_mod(g as nat, m as nat);
        assert(draws * g == fewer * g + g) by (nonlinear_arith)
            requires
                draws == fewer + 1,
        ;
        let before = state_after(state, fewer);
        if before + g >= m {
            vstd::arithmetic::div_mod::lemma_fundamental_div_mod_converse(
                before + g,
                m,
                1,
                before + g - m,
            );
        } else {
            vstd::arithmetic::div_mod::lemma_small_mod((before + g) as nat, m as nat);
        }
    } else {
        assert(draws * g == 0);
        vstd::arithmetic::div_mod::lemma_small_mod(state as nat, m as nat);
    }
}

/// A number tells the state that it was drawn at: undoing the two
/// multiplications by their inverses, and the three shifts by shifting again,
/// leads from the number back to the state.
pub proof fn law_a_number_tells_its_state(state: u64)
    ensures
        ({
            let n = output(state);
            let y = (n ^ (n >> 31) ^ (n >> 62)).wrapping_mul(0x3196_42B2_D24D_8EC3);
            let x = (y ^ (y >> 27) ^ (y >> 54)).wrapping_mul(0x96DE_1B17_3F11_9089);
            state == x ^ (x >> 30) ^ (x >> 60)
        }),
{
    let a0 = state ^ (state >> 30);
    let a1 = a0.wrapping_mul(MIX_1);
    let b0 = a1 ^ (a1 >> 27);
    let b1 = b0.wrapping_mul(MIX_2);
    let n = b1 ^ (b1 >> 31);
    assert(n ^ (n >> 31) ^ (n >> 62) == b1) by (bit_vector)
        requires
            n == b1 ^ (b1 >> 31),
    ;
    lemma_unmul(b0, MIX_2, UNMIX_2);
    assert(b0 ^ (b0 >> 27) ^ (b0 >> 54) == a1) by (bit_vector)
        requires
            b0 == a1 ^ (a1 >> 27),
    ;
    lemma_unmul(a0, MIX_1, UNMIX_1);
    assert(a0 ^ (a0 >> 30) ^ (a0 >> 60) == state) by (bit_vector)
        requires
            a0 == state ^ (state >> 30),
    ;
}

} // verus!
