//! Offset sequences and the slot arithmetic of a power-of-two table.
use vstd::prelude::*;
use vstd::arithmetic::div_mod::{
    lemma_add_mod_noop, lemma_fundamental_div_mod, lemma_mod_mod, lemma_mod_multiples_vanish,
    lemma_small_mod,
};
use vstd::arithmetic::power::pow;
use vstd::arithmetic::power2::{
    is_pow2, is_pow2_equiv, is_pow2_exists, lemma2_to64, lemma2_to64_rest, lemma_pow2,
    lemma_pow2_adds, lemma_pow2_pos, lemma_pow2_strictly_increases, lemma_pow2_unfold, pow2,
};
use vstd::bits::{lemma_u64_low_bits_mask_is_mod, low_bits_mask};

verus! {

/// A slot count is valid when it is a power of two.
pub open spec fn is_capacity(cap: nat) -> bool {
    exists|n: nat| #[trigger] pow2(n) == cap
}

/// The exponent of a valid slot count.
pub open spec fn capacity_log(cap: nat) -> nat {
    choose|n: nat| #[trigger] pow2(n) == cap
}

/// The sequence of offsets added to the home slot at the probe steps 1, 2, 3, ...
#[derive(Clone, Copy)]
pub enum OffsetSequence {
    /// Step `k` has offset `k * step`.
    Linear { step: u64 },
    /// Step `k` has offset `k * k`.
    Quadratic,
}

/// The slot at which every probe for `hash` starts.
pub open spec fn home_slot(hash: u64, cap: nat) -> nat {
    hash as nat % cap
}

/// The slot inspected at step `k` of the probe for `hash`; step 0 is the home slot.
pub open spec fn probe_slot(offset: OffsetSequence, hash: u64, k: nat, cap: nat) -> nat {
    (home_slot(hash, cap) + offset.spec_offset(k)) % cap
}

impl OffsetSequence {
    /// The offset of step `k`, as a natural number.
    pub open spec fn spec_offset(self, k: nat) -> nat {
        match self {
            OffsetSequence::Linear { step } => k * (step as nat),
            OffsetSequence::Quadratic => k * k,
        }
    }

    /// Whether the sequence visits every slot of a power-of-two table before it
    /// comes back to the home slot.
    pub open spec fn covering(self) -> bool {
        self matches OffsetSequence::Linear { step } && step % 2 == 1
    }

    /// The offset of step `k`, reduced modulo 2^64.
    pub fn offset(&self, k: u64) -> (r: u64)
        ensures
            r as nat == self.spec_offset(k as nat) % 0x1_0000_0000_0000_0000,
    {
        match self {
            OffsetSequence::Linear { step } => k.wrapping_mul(*step),
            OffsetSequence::Quadratic => k.wrapping_mul(k),
        }
    }
}

/// A valid slot count that fits a `u64` has an exponent below 64 and divides 2^64.
pub proof fn lemma_capacity_exponent(cap: nat)
    requires
        is_capacity(cap),
        cap <= u64::MAX,
    ensures
        capacity_log(cap) < 64,
        pow2(capacity_log(cap)) == cap,
        cap > 0,
        cap * pow2((64 - capacity_log(cap)) as nat) == 0x1_0000_0000_0000_0000,
{
    let n = capacity_log(cap);
    lemma_pow2_pos(n);
    lemma2_to64_rest();
    if n >= 64 {
        if n > 64 {
            lemma_pow2_strictly_increases(64, n);
        }
        assert(false);
    }
    lemma_pow2_adds(n, (64 - n) as nat);
}

/// Doubling a valid slot count gives a valid slot count.
pub proof fn lemma_capacity_double(cap: nat)
    requires
        is_capacity(cap),
    ensures
        is_capacity(2 * cap),
{
    let n = capacity_log(cap);
    lemma_pow2_unfold(n + 1);
    assert(pow2(n + 1) == 2 * cap);
}

/// The small powers of two are valid slot counts.
pub proof fn lemma_capacity_small()
    ensures
        is_capacity(1),
        is_capacity(2),
        is_capacity(4),
        is_capacity(8),
        is_capacity(16),
        is_capacity(32),
        is_capacity(64),
{
    lemma2_to64();
    assert(pow2(0) == 1);
    assert(pow2(1) == 2);
    assert(pow2(2) == 4);
    assert(pow2(3) == 8);
    assert(pow2(4) == 16);
    assert(pow2(5) == 32);
    assert(pow2(6) == 64);
}

/// Whether `n` is a valid slot count.
pub fn is_power_of_two(n: usize) -> (b: bool)
    ensures
        b == is_capacity(n as nat),
{
    proof {
        lemma_capacity_is_pow2(n as nat);
    }
    if n == 0 {
        assert(!is_pow2(0)) by {
            reveal(is_pow2);
        }
        return false;
    }
    let mut m = n;
    while m % 2 == 0
        invariant
            0 < m <= n,
            is_pow2(m as int) == is_pow2(n as int),
        decreases m,
    {
        assert(is_pow2(m as int) == is_pow2((m / 2) as int)) by {
            reveal(is_pow2);
        }
        m = m / 2;
    }
    assert(is_pow2(m as int) == (m == 1)) by {
        reveal(is_pow2);
    }
    m == 1
}

/// A slot count is valid exactly if halving it again and again ends at one.
pub proof fn lemma_capacity_is_pow2(cap: nat)
    ensures
        is_capacity(cap) == is_pow2(cap as int),
{
    is_pow2_equiv(cap as int);
    if is_capacity(cap) {
        let n = capacity_log(cap);
        lemma_pow2(n);
        assert(pow(2, n) == cap as int);
    }
    if is_pow2_exists(cap as int) {
        let n = choose|n: nat| pow(2, n) == cap as int;
        lemma_pow2(n);
        assert(pow2(n) == cap);
    }
}

/// Reducing modulo 2^64 first does not change a remainder modulo a valid slot count.
pub proof fn lemma_mod_wrap(x: int, cap: nat)
    requires
        is_capacity(cap),
        cap <= u64::MAX,
    ensures
        (x % 0x1_0000_0000_0000_0000) % (cap as int) == x % (cap as int),
{
    lemma_capacity_exponent(cap);
    let rest = pow2((64 - capacity_log(cap)) as nat);
    lemma_pow2_pos((64 - capacity_log(cap)) as nat);
    lemma_mod_mod(x, cap as int, rest as int);
}

/// Masking with `cap - 1` is the remainder modulo `cap`.
pub proof fn lemma_mask_is_mod(x: u64, mask: u64)
    requires
        is_capacity((mask + 1) as nat),
        mask < u64::MAX,
    ensures
        (x & mask) as nat == x as nat % ((mask + 1) as nat),
{
    let cap = (mask + 1) as nat;
    lemma_capacity_exponent(cap);
    let n = capacity_log(cap);
    assert(low_bits_mask(n) == mask);
    lemma_u64_low_bits_mask_is_mod(x, n);
}

/// The home slot of `hash` in a table of `mask + 1` slots.
pub fn home_index(hash: u64, mask: usize) -> (i: usize)
    requires
        is_capacity((mask + 1) as nat),
        mask < usize::MAX,
    ensures
        i as nat == home_slot(hash, (mask + 1) as nat),
        i <= mask,
{
    proof {
        lemma_mask_is_mod(hash, mask as u64);
        lemma_capacity_exponent((mask + 1) as nat);
        vstd::arithmetic::div_mod::lemma_mod_bound(hash as int, mask + 1);
    }
    (hash & (mask as u64)) as usize
}

/// Adding an offset that was reduced modulo 2^64 to the home slot gives the slot of the
/// step that the offset belongs to.
pub proof fn lemma_probe_index(sequence: OffsetSequence, hash: u64, k: nat, offset: u64, cap: nat)
    requires
        is_capacity(cap),
        cap <= u64::MAX,
        offset as nat == sequence.spec_offset(k) % 0x1_0000_0000_0000_0000,
    ensures
        (home_slot(hash, cap) + offset) % (cap as int) == probe_slot(sequence, hash, k, cap),
{
    let home = home_slot(hash, cap) as int;
    let full = sequence.spec_offset(k) as int;
    lemma_capacity_exponent(cap);
    lemma_mod_wrap(full, cap);
    lemma_add_mod_noop(home, offset as int, cap as int);
    lemma_add_mod_noop(home, full, cap as int);
}

/// The slot that lies `offset` slots after the slot `home`, around the end of the table.
pub fn probe_index(home: usize, offset: u64, mask: usize) -> (i: usize)
    requires
        is_capacity((mask + 1) as nat),
        mask < usize::MAX,
        home <= mask,
    ensures
        i as int == (home + offset) % (mask + 1),
        i <= mask,
{
    let sum = (home as u64).wrapping_add(offset);
    proof {
        let cap = (mask + 1) as nat;
        lemma_capacity_exponent(cap);
        lemma_mask_is_mod(sum, mask as u64);
        // sum is home + offset up to a multiple of 2^64
        lemma_mod_wrap(home as int + offset as int, cap);
        if home + offset > u64::MAX {
            lemma_small_mod(
                (home + offset - 0x1_0000_0000_0000_0000) as nat,
                0x1_0000_0000_0000_0000,
            );
            lemma_mod_multiples_vanish(-1, home as int + offset as int, 0x1_0000_0000_0000_0000);
        } else {
            lemma_small_mod((home + offset) as nat, 0x1_0000_0000_0000_0000);
        }
        vstd::arithmetic::div_mod::lemma_mod_bound(home as int + offset as int, cap as int);
    }
    (sum & (mask as u64)) as usize
}

/// The offset producer of one probe walk: it hands out the offsets of a sequence, one
/// per call, and counts them.
pub struct Offsets {
    sequence: OffsetSequence,
    taken: u64,
}

impl Offsets {
    /// The sequence whose offsets the producer hands out.
    pub closed spec fn sequence(&self) -> OffsetSequence {
        self.sequence
    }

    /// The number of offsets handed out so far.
    pub closed spec fn spec_taken(&self) -> nat {
        self.taken as nat
    }

    /// A producer that has handed out nothing yet.
    pub fn new(sequence: OffsetSequence) -> (offsets: Self)
        ensures
            offsets.sequence() == sequence,
            offsets.spec_taken() == 0,
    {
        Offsets { sequence, taken: 0 }
    }

    /// The number of offsets handed out so far.
    pub fn taken(&self) -> (n: u64)
        ensures
            n == self.spec_taken(),
    {
        self.taken
    }

    /// The next offset of the sequence, reduced modulo 2^64.
    pub fn next(&mut self) -> (r: u64)
        requires
            old(self).spec_taken() < u64::MAX,
        ensures
            final(self).sequence() == old(self).sequence(),
            final(self).spec_taken() == old(self).spec_taken() + 1,
            r as nat == old(self).sequence().spec_offset(final(self).spec_taken())
                % 0x1_0000_0000_0000_0000,
    {
        self.taken = self.taken + 1;
        self.sequence.offset(self.taken)
    }
}

/// After as many steps as the table has slots every offset sequence is back at the
/// home slot.
pub proof fn lemma_probe_returns_home(offset: OffsetSequence, hash: u64, cap: nat)
    requires
        cap > 0,
    ensures
        probe_slot(offset, hash, cap, cap) == home_slot(hash, cap),
        probe_slot(offset, hash, 0, cap) == home_slot(hash, cap),
        home_slot(hash, cap) < cap,
{
    let home = home_slot(hash, cap) as int;
    vstd::arithmetic::div_mod::lemma_mod_bound(hash as int, cap as int);
    lemma_small_mod(home as nat, cap);
    let factor: int = match offset {
        OffsetSequence::Linear { step } => step as int,
        OffsetSequence::Quadratic => cap as int,
    };
    assert(offset.spec_offset(cap) == cap * factor) by (nonlinear_arith)
        requires
            offset.spec_offset(cap) == cap * (factor as nat),
            factor >= 0,
    ;
    lemma_mod_multiples_vanish(factor, home, cap as int);
    assert(offset.spec_offset(0) == 0) by (nonlinear_arith)
        requires
            offset.spec_offset(0) == 0 * (factor as nat) || offset.spec_offset(0) == 0 * 0,
    ;
}

/// Every probed slot lies inside the table.
pub proof fn lemma_probe_in_range(offset: OffsetSequence, hash: u64, k: nat, cap: nat)
    requires
        cap > 0,
    ensures
        probe_slot(offset, hash, k, cap) < cap,
{
    vstd::arithmetic::div_mod::lemma_mod_bound(
        (home_slot(hash, cap) + offset.spec_offset(k)) as int,
        cap as int,
    );
}

/// Two linear walks that meet stay together: if step `a` of one lies in the slot of step
/// `b` of the other, so do the steps after them.
pub proof fn lemma_linear_advance(step: u64, hash_a: u64, a: nat, hash_b: u64, b: nat, cap: nat)
    requires
        cap > 0,
        probe_slot(OffsetSequence::Linear { step }, hash_a, a, cap) == probe_slot(
            OffsetSequence::Linear { step },
            hash_b,
            b,
            cap,
        ),
    ensures
        probe_slot(OffsetSequence::Linear { step }, hash_a, a + 1, cap) == probe_slot(
            OffsetSequence::Linear { step },
            hash_b,
            b + 1,
            cap,
        ),
{
    let c = cap as int;
    let s = step as int;
    let x = home_slot(hash_a, cap) + a * s;
    let y = home_slot(hash_b, cap) + b * s;
    assert((a + 1) * s == a * s + s) by (nonlinear_arith);
    assert((b + 1) * s == b * s + s) by (nonlinear_arith);
    lemma_add_mod_noop(x, s, c);
    lemma_add_mod_noop(y, s, c);
}

/// A linear walk that comes to one slot twice has come back to its home slot in
/// between: if the steps `a < b` lie in the same slot, step `b - a` is the home slot.
pub proof fn lemma_linear_repeat(step: u64, hash: u64, a: nat, b: nat, cap: nat)
    requires
        cap > 0,
        a < b,
        probe_slot(OffsetSequence::Linear { step }, hash, a, cap) == probe_slot(
            OffsetSequence::Linear { step },
            hash,
            b,
            cap,
        ),
    ensures
        probe_slot(OffsetSequence::Linear { step }, hash, (b - a) as nat, cap) == home_slot(
            hash,
            cap,
        ),
{
    let c = cap as int;
    let s = step as int;
    let home = home_slot(hash, cap) as int;
    let x = home + a * s;
    let y = home + b * s;
    vstd::arithmetic::div_mod::lemma_mod_equivalence(y, x, c);
    assert(y - x == (b - a) * s) by (nonlinear_arith)
        requires
            x == home + a * s,
            y == home + b * s,
    ;
    vstd::arithmetic::div_mod::lemma_mod_bound(hash as int, c);
    lemma_small_mod(home as nat, cap);
    lemma_add_mod_noop(home, (b - a) * s, c);
}

/// An odd number has an inverse modulo every power of two.
pub proof fn lemma_odd_inverse(s: int, n: nat) -> (t: int)
    requires
        s >= 0,
        s % 2 == 1,
    ensures
        t >= 0,
        (s * t) % (pow2(n) as int) == 1int % (pow2(n) as int),
    decreases n,
{
    lemma2_to64();
    if n == 0 {
        0
    } else if n == 1 {
        assert(s * 1 == s);
        1
    } else {
        let c = pow2((n - 1) as nat) as int;
        lemma_pow2_unfold(n);
        lemma_pow2_pos((n - 1) as nat);
        lemma_pow2_strictly_increases(0, (n - 1) as nat);
        assert(c > 1);
        let t = lemma_odd_inverse(s, (n - 1) as nat);
        let u = s * t;
        lemma_small_mod(1, c as nat);
        lemma_small_mod(1, (2 * c) as nat);
        lemma_fundamental_div_mod(u, c);
        let q = u / c;
        assert(u == c * q + 1);
        let a = s / 2;
        lemma_fundamental_div_mod(s, 2);
        assert(s == 2 * a + 1);
        if q % 2 == 0 {
            let h = q / 2;
            lemma_fundamental_div_mod(q, 2);
            assert(u == (2 * c) * h + 1) by (nonlinear_arith)
                requires
                    u == c * q + 1,
                    q == 2 * h,
            ;
            lemma_mod_multiples_vanish(h, 1, 2 * c);
            t
        } else {
            let h = q / 2;
            lemma_fundamental_div_mod(q, 2);
            assert(q == 2 * h + 1);
            assert(s * (t + c) == (2 * c) * (h + a + 1) + 1) by (nonlinear_arith)
                requires
                    s * t == c * q + 1,
                    q == 2 * h + 1,
                    s == 2 * a + 1,
            ;
            lemma_mod_multiples_vanish(h + a + 1, 1, 2 * c);
            t + c
        }
    }
}

/// In a power-of-two table a multiple of an odd step is a multiple of the slot count
/// only if the factor is.
pub proof fn lemma_odd_multiple(step: int, m: int, cap: nat)
    requires
        is_capacity(cap),
        step >= 0,
        step % 2 == 1,
        m >= 0,
        (m * step) % (cap as int) == 0,
    ensures
        m % (cap as int) == 0,
{
    let n = capacity_log(cap);
    let c = cap as int;
    lemma_pow2_pos(n);
    let t = lemma_odd_inverse(step, n);
    // m * step * t is both a multiple of the slot count and congruent to m
    vstd::arithmetic::div_mod::lemma_mul_mod_noop_general(m * step, t, c);
    assert(((m * step) % c) * t == 0) by (nonlinear_arith)
        requires
            (m * step) % c == 0,
    ;
    lemma_small_mod(0, cap);
    assert((m * step) * t == m * (step * t)) by (nonlinear_arith);
    vstd::arithmetic::div_mod::lemma_mul_mod_noop_general(m, step * t, c);
    if c == 1 {
    } else {
        lemma_small_mod(1, cap);
        assert(m * 1 == m);
    }
}

/// A linear walk with an odd step does not come back to the home slot before it has
/// made as many steps as the table has slots.
pub proof fn lemma_covering_no_early_return(step: u64, hash: u64, m: nat, cap: nat)
    requires
        is_capacity(cap),
        step % 2 == 1,
        0 < m < cap,
    ensures
        probe_slot(OffsetSequence::Linear { step }, hash, m, cap) != home_slot(hash, cap),
{
    let c = cap as int;
    let home = home_slot(hash, cap) as int;
    if probe_slot(OffsetSequence::Linear { step }, hash, m, cap) == home_slot(hash, cap) {
        vstd::arithmetic::div_mod::lemma_mod_bound(hash as int, c);
        lemma_small_mod(home as nat, cap);
        vstd::arithmetic::div_mod::lemma_mod_equivalence(home + m * step, home, c);
        assert(home + m * step - home == m * step);
        lemma_odd_multiple(step as int, m as int, cap);
        lemma_small_mod(m, cap);
    }
}

/// A linear walk with an odd step comes to every slot of a power-of-two table.
pub proof fn lemma_covering_reaches(step: u64, hash: u64, slot: nat, cap: nat) -> (j: nat)
    requires
        is_capacity(cap),
        step % 2 == 1,
        slot < cap,
    ensures
        j < cap,
        probe_slot(OffsetSequence::Linear { step }, hash, j, cap) == slot,
{
    let n = capacity_log(cap);
    let c = cap as int;
    let s = step as int;
    lemma_pow2_pos(n);
    let home = home_slot(hash, cap) as int;
    vstd::arithmetic::div_mod::lemma_mod_bound(hash as int, c);
    let t = lemma_odd_inverse(s, n);
    let d = slot + c - home;
    assert(d * t >= 0) by (nonlinear_arith)
        requires
            d >= 0,
            t >= 0,
    ;
    let j = (d * t) % c;
    vstd::arithmetic::div_mod::lemma_mod_bound(d * t, c);
    // j * step is congruent to d
    vstd::arithmetic::div_mod::lemma_mul_mod_noop_general(d * t, s, c);
    assert((d * t) * s == d * (s * t)) by (nonlinear_arith);
    vstd::arithmetic::div_mod::lemma_mul_mod_noop_general(d, s * t, c);
    if c == 1 {
        lemma_small_mod(0, cap);
        assert(j == 0 && slot == 0 && home == 0);
        assert(j * s == 0) by (nonlinear_arith)
            requires
                j == 0,
        ;
    } else {
        lemma_small_mod(1, cap);
        assert(d * 1 == d);
        assert((j * s) % c == d % c);
        lemma_add_mod_noop(home, j * s, c);
        lemma_add_mod_noop(home, d, c);
        assert(home + d == c + slot);
        lemma_mod_multiples_vanish(1, slot as int, c);
        lemma_small_mod(slot, cap);
    }
    j as nat
}

} // verus!
