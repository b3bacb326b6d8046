//! The xorshift generator that draws the initial noise of flow sampling.
use vstd::prelude::*;

verus! {

/// One step of the 64-bit xorshift generator (shifts 13, 7, 17).
pub open spec fn xorshift_step(x: u64) -> u64 {
    let a = x ^ (x << 13u64);
    let b = a ^ (a >> 7u64);
    b ^ (b << 17u64)
}

/// The state that a seed starts the generator in: the seed, or 1 for seed 0.
pub open spec fn seed_state(seed: u64) -> u64 {
    if seed == 0 {
        1
    } else {
        seed
    }
}

/// A step never leads a nonzero state to zero: each of its three parts,
/// `x ^ (x << s)` and `x ^ (x >> s)`, maps only zero to zero.
pub proof fn lemma_xorshift_step_nonzero(x: u64)
    requires
        x != 0,
    ensures
        xorshift_step(x) != 0,
{
    let a = x ^ (x << 13u64);
    let b = a ^ (a >> 7u64);
    assert(x != 0 ==> x ^ (x << 13u64) != 0) by (bit_vector);
    assert(a != 0 ==> a ^ (a >> 7u64) != 0) by (bit_vector);
    assert(b != 0 ==> b ^ (b << 17u64) != 0) by (bit_vector);
}

pub struct XorShift64 {
    state: u64,
}

impl XorShift64 {
    /// The generator's state, never zero.
    #[verifier::type_invariant]
    spec fn state_nonzero(self) -> bool {
        self.state != 0
    }

    pub closed spec fn spec_state(self) -> u64 {
        self.state
    }

    /// A generator seeded with `seed` (0 is taken as 1).
    pub fn new(seed: u64) -> (g: Self)
        ensures
            g.spec_state() == seed_state(seed),
            seed != 0 ==> g.spec_state() == seed,
            seed == 0 ==> g.spec_state() == 1,
    {
        let state = if seed > 1 {
            seed
        } else {
            1
        };
        XorShift64 { state }
    }

    /// Steps the generator and returns the high 32 bits of its new state.
    pub fn next_u32(&mut self) -> (r: u32)
        ensures
            final(self).spec_state() == xorshift_step(old(self).spec_state()),
            r == (xorshift_step(old(self).spec_state()) >> 32u64) as u32,
    {
        proof {
            use_type_invariant(&*self);
            lemma_xorshift_step_nonzero(self.state);
        }
        let mut x = self.state;
        x ^= x << 13;
        x ^= x >> 7;
        x ^= x << 17;
        self.state = x;
        (x >> 32) as u32
    }
}

/// Law: whatever the seed, the state stays nonzero through any number of
/// steps, so the generator never falls into the all-zero fixed point.
pub proof fn law_state_never_zero(seed: u64, steps: nat)
    ensures
        iterate_step(seed_state(seed), steps) != 0,
    decreases steps,
{
    if steps > 0 {
        law_state_never_zero(seed, (steps - 1) as nat);
        lemma_xorshift_step_nonzero(iterate_step(seed_state(seed), (steps - 1) as nat));
    }
}

/// The state after `steps` steps from `x`.
pub open spec fn iterate_step(x: u64, steps: nat) -> u64
    decreases steps,
{
    if steps == 0 {
        x
    } else {
        xorshift_step(iterate_step(x, (steps - 1) as nat))
    }
}

/// Law: a nonzero seed is the generator's starting state, all 64 bits of
/// it; seed 0 starts in state 1.
pub proof fn law_seed_is_start_state(seed: u64)
    ensures
        seed != 0 ==> seed_state(seed) == seed,
        seed == 0 ==> seed_state(seed) == 1,
{
}

/// A step is one-to-one: each of its three parts, `x ^ (x << s)` and
/// `x ^ (x >> s)`, can be undone.
pub proof fn lemma_xorshift_step_injective(x: u64, y: u64)
    requires
        x != y,
    ensures
        xorshift_step(x) != xorshift_step(y),
{
    let ax = x ^ (x << 13u64);
    let ay = y ^ (y << 13u64);
    let bx = ax ^ (ax >> 7u64);
    let by_ = ay ^ (ay >> 7u64);
    assert(x != y ==> x ^ (x << 13u64) != y ^ (y << 13u64)) by (bit_vector);
    assert(ax != ay ==> ax ^ (ax >> 7u64) != ay ^ (ay >> 7u64)) by (bit_vector);
    assert(bx != by_ ==> bx ^ (bx << 17u64) != by_ ^ (by_ << 17u64)) by (bit_vector);
}

/// Law: distinct nonzero seeds give distinct generators: their states
/// differ after any number of steps.
pub proof fn law_distinct_seeds_distinct_states(s1: u64, s2: u64, steps: nat)
    requires
        s1 != s2,
        s1 != 0,
        s2 != 0,
    ensures
        iterate_step(seed_state(s1), steps) != iterate_step(seed_state(s2), steps),
    decreases steps,
{
    if steps > 0 {
        law_distinct_seeds_distinct_states(s1, s2, (steps - 1) as nat);
        lemma_xorshift_step_injective(
            iterate_step(seed_state(s1), (steps - 1) as nat),
            iterate_step(seed_state(s2), (steps - 1) as nat),
        );
    }
}

} // verus!
