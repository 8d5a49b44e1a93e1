use vstd::prelude::*;

verus! {

/// The state a zero seed is replaced by: xorshift never leaves zero.
pub const ZERO_SEED_REPLACEMENT: u64 = 0xdeadbeef_cafebabe;

/// One xorshift64 step (shifts 13, 7, 17).
pub open spec fn xorshift_step(x: u64) -> u64 {
    let x1 = x ^ (x << 13u64);
    let x2 = x1 ^ (x1 >> 7u64);
    x2 ^ (x2 << 17u64)
}

/// The state `n` steps after `x`.
pub open spec fn xorshift_iter(x: u64, n: nat) -> u64
    decreases n,
{
    if n == 0 {
        x
    } else {
        xorshift_step(xorshift_iter(x, (n - 1) as nat))
    }
}

/// The state a generator starts from for `seed`.
pub open spec fn seeded_state(seed: u64) -> u64 {
    if seed == 0 {
        ZERO_SEED_REPLACEMENT
    } else {
        seed
    }
}

/// `x` xor `x` shifted left by `s`.
pub open spec fn xor_shl(x: u64, s: u64) -> u64 {
    x ^ (x << s)
}

/// `x` xor `x` shifted right by `s`.
pub open spec fn xor_shr(x: u64, s: u64) -> u64 {
    x ^ (x >> s)
}

/// One step is the three xor-shifts of xorshift64 in turn, left by 13,
/// right by 7, left by 17, and nothing else.
pub proof fn lemma_step_is_three_xorshifts(x: u64)
    ensures
        xorshift_step(x) == xor_shl(xor_shr(xor_shl(x, 13), 7), 17),
{
}

/// Undoes `xor_shl(_, 13)`.
pub open spec fn undo_shl13(y: u64) -> u64 {
    y ^ (y << 13u64) ^ (y << 26u64) ^ (y << 39u64) ^ (y << 52u64)
}

/// Undoes `xor_shr(_, 7)`.
pub open spec fn undo_shr7(y: u64) -> u64 {
    y ^ (y >> 7u64) ^ (y >> 14u64) ^ (y >> 21u64) ^ (y >> 28u64) ^ (y >> 35u64) ^ (y >> 42u64) ^ (y >> 49u64)
        ^ (y >> 56u64) ^ (y >> 63u64)
}

/// Undoes `xor_shl(_, 17)`.
pub open spec fn undo_shl17(y: u64) -> u64 {
    y ^ (y << 17u64) ^ (y << 34u64) ^ (y << 51u64)
}

/// The state one step before `y`.
pub open spec fn xorshift_unstep(y: u64) -> u64 {
    undo_shl13(undo_shr7(undo_shl17(y)))
}

/// A step is a bijection of the 64-bit states, and `xorshift_unstep` is its
/// inverse: no two states step to the same one.
pub proof fn lemma_step_invertible(x: u64, y: u64)
    ensures
        xorshift_unstep(xorshift_step(x)) == x,
        xorshift_step(xorshift_unstep(y)) == y,
        xorshift_step(x) == xorshift_step(y) ==> x == y,
{
    assert(forall|a: u64| #[trigger] undo_shl13(a ^ (a << 13u64)) == a) by (bit_vector);
    assert(forall|a: u64| #[trigger] undo_shr7(a ^ (a >> 7u64)) == a) by (bit_vector);
    assert(forall|a: u64| #[trigger] undo_shl17(a ^ (a << 17u64)) == a) by (bit_vector);
    assert(forall|a: u64| #![trigger undo_shl13(a)] undo_shl13(a) ^ (undo_shl13(a) << 13u64) == a) by (bit_vector);
    assert(forall|a: u64| #![trigger undo_shr7(a)] undo_shr7(a) ^ (undo_shr7(a) >> 7u64) == a) by (bit_vector);
    assert(forall|a: u64| #![trigger undo_shl17(a)] undo_shl17(a) ^ (undo_shl17(a) << 17u64) == a) by (bit_vector);
    let x1 = x ^ (x << 13u64);
    let x2 = x1 ^ (x1 >> 7u64);
    let x3 = x2 ^ (x2 << 17u64);
    assert(undo_shl17(x3) == x2);
    assert(undo_shr7(x2) == x1);
    assert(undo_shl13(x1) == x);
    let b = undo_shl17(y);
    let c = undo_shr7(b);
    let d = undo_shl13(c);
    assert(d ^ (d << 13u64) == c);
    assert(c ^ (c >> 7u64) == b);
    assert(b ^ (b << 17u64) == y);
    let y1 = y ^ (y << 13u64);
    let y2 = y1 ^ (y1 >> 7u64);
    let y3 = y2 ^ (y2 << 17u64);
    assert(undo_shl17(y3) == y2);
    assert(undo_shr7(y2) == y1);
    assert(undo_shl13(y1) == y);
}

/// The stream from seed 42: its first two states have their high bits set,
/// which pins all three shifts.
pub proof fn lemma_seed_42_stream()
    ensures
        xorshift_iter(seeded_state(42), 1) == 45454805674u64,
        xorshift_iter(seeded_state(42), 2) == 11532217803599905471u64,
        xorshift_iter(seeded_state(0), 1) == 2872271934144653387u64,
{
    reveal_with_fuel(xorshift_iter, 3);
    assert(xorshift_step(42) == 45454805674u64) by (bit_vector);
    assert(xorshift_step(45454805674u64) == 11532217803599905471u64) by (bit_vector);
    assert(xorshift_step(0xdeadbeef_cafebabe) == 2872271934144653387u64) by (bit_vector);
}

/// A step never maps a nonzero state to zero.
pub proof fn lemma_step_nonzero(x: u64)
    requires
        x != 0,
    ensures
        xorshift_step(x) != 0,
{
    assert(x != 0 ==> (x ^ (x << 13u64)) != 0) by (bit_vector);
    let x1 = x ^ (x << 13u64);
    assert(x1 != 0 ==> (x1 ^ (x1 >> 7u64)) != 0) by (bit_vector);
    let x2 = x1 ^ (x1 >> 7u64);
    assert(x2 != 0 ==> (x2 ^ (x2 << 17u64)) != 0) by (bit_vector);
}

/// A generator started from any seed never reaches the zero state.
pub proof fn lemma_never_zero(seed: u64, n: nat)
    ensures
        xorshift_iter(seeded_state(seed), n) != 0,
    decreases n,
{
    if n > 0 {
        lemma_never_zero(seed, (n - 1) as nat);
        lemma_step_nonzero(xorshift_iter(seeded_state(seed), (n - 1) as nat));
    }
}

/// Two seeds give the same stream of states exactly when they are equal, or
/// when one is 0 and the other `ZERO_SEED_REPLACEMENT`, which stands in for
/// a zero seed.
pub proof fn lemma_same_stream(s1: u64, s2: u64)
    ensures
        (forall|n: nat| #[trigger] xorshift_iter(seeded_state(s1), n) == xorshift_iter(seeded_state(s2), n))
            <==> (s1 == s2 || (s1 == 0 && s2 == ZERO_SEED_REPLACEMENT) || (s1 == ZERO_SEED_REPLACEMENT && s2 == 0)),
{
    assert(xorshift_iter(seeded_state(s1), 0) == seeded_state(s1));
    assert(xorshift_iter(seeded_state(s2), 0) == seeded_state(s2));
}

/// The deterministic xorshift64 generator that seeds a universe.
pub struct Xorshift64(u64);

impl View for Xorshift64 {
    type V = u64;

    closed spec fn view(&self) -> u64 {
        self.0
    }
}

impl Xorshift64 {
    pub fn new(seed: u64) -> (r: Self)
        ensures
            r@ == seeded_state(seed),
            r@ != 0,
    {
        Self(if seed == 0 { ZERO_SEED_REPLACEMENT } else { seed })
    }

    /// Advances the state by one step and returns the new state.
    pub fn next(&mut self) -> (r: u64)
        ensures
            r == xorshift_step(old(self)@),
            final(self)@ == r,
            old(self)@ != 0 ==> r != 0,
    {
        let mut x = self.0;
        x ^= x << 13;
        x ^= x >> 7;
        x ^= x << 17;
        self.0 = x;
        proof {
            if old(self)@ != 0 {
                lemma_step_nonzero(old(self)@);
            }
        }
        x
    }
}

} // verus!
