//! The damage-level policy: one non-negative rational knob, interpreted as
//! the fraction of the payload's bytes that may be damaged and still
//! recovered, translated into a copy count and a Reed-Solomon parity
//! length.

use vstd::prelude::*;

verus! {

/// An exact non-negative rational damage level, `num / den`.
#[derive(Clone, Copy, Debug, PartialEq, Eq, Structural)]
pub struct DamageLevel {
    pub num: u64,
    pub den: u64,
}

impl DamageLevel {
    /// A level is well formed when its denominator is nonzero.
    pub open spec fn wf(self) -> bool {
        self.den >= 1
    }

    /// The level `num / den`.
    pub fn new(num: u64, den: u64) -> (r: DamageLevel)
        requires
            den >= 1,
        ensures
            r.num == num,
            r.den == den,
            r.wf(),
    {
        DamageLevel { num, den }
    }

    /// The level `halves / 2`: the granularity the policy sweeps.
    pub fn from_halves(halves: u64) -> (r: DamageLevel)
        ensures
            r.num == halves,
            r.den == 2,
            r.wf(),
    {
        DamageLevel { num: halves, den: 2 }
    }
}

/// `floor(len * level)`: the whole number of recoverable payload copies
/// the level asks for.
pub open spec fn spec_floor_scaled(len: nat, lvl: DamageLevel) -> nat {
    (((len as int) * (lvl.num as int)) / (lvl.den as int)) as nat
}

/// Whether `len * level` is a whole number.
pub open spec fn spec_scaled_is_whole(len: nat, lvl: DamageLevel) -> bool {
    ((len as int) * (lvl.num as int)) % (lvl.den as int) == 0
}

/// How many verbatim copies the pack carries beyond the baseline one.
/// When the level is a whole number of copies greater than one, one copy
/// is traded for Reed-Solomon parity.
pub open spec fn spec_copy_times(len: nat, lvl: DamageLevel) -> nat {
    let base = spec_floor_scaled(len, lvl);
    if base > 1 && spec_scaled_is_whole(len, lvl) {
        (base - 1) as nat
    } else {
        base
    }
}

/// The multiple of the payload length that becomes Reed-Solomon parity:
/// two after the copy-for-parity trade, else the floor of twice the
/// fractional part of `len * level`.
pub open spec fn spec_rs_factor(len: nat, lvl: DamageLevel) -> nat {
    let base = spec_floor_scaled(len, lvl);
    let rem = ((len as int) * (lvl.num as int)) % (lvl.den as int);
    if base > 1 && rem == 0 {
        2
    } else if 2 * rem >= lvl.den as int {
        1
    } else {
        0
    }
}

/// The Reed-Solomon parity length the level asks for.
pub open spec fn spec_rs_ecc_len(len: nat, lvl: DamageLevel) -> nat {
    len * spec_rs_factor(len, lvl)
}

/// The allowed damage in bits: eight per whole recoverable byte.
pub open spec fn spec_damage_bits(len: nat, lvl: DamageLevel) -> nat {
    8 * spec_floor_scaled(len, lvl)
}

/// `floor(len * level)`, computed exactly.
pub fn floor_scaled(len: usize, lvl: &DamageLevel) -> (r: u128)
    requires
        lvl.wf(),
    ensures
        r as nat == spec_floor_scaled(len as nat, *lvl),
{
    proof {
        assert((len as int) * (lvl.num as int) < 0x100000000000000000000000000000000int)
            by (nonlinear_arith)
            requires
                0 <= len as int <= 0xffffffffffffffffint,
                0 <= lvl.num as int <= 0xffffffffffffffffint,
        ;
    }
    let prod: u128 = (len as u128) * (lvl.num as u128);
    prod / (lvl.den as u128)
}

/// The remainder of `len * level` over the denominator.
fn scaled_rem(len: usize, lvl: &DamageLevel) -> (r: u128)
    requires
        lvl.wf(),
    ensures
        r as int == ((len as int) * (lvl.num as int)) % (lvl.den as int),
        r < lvl.den as u128,
{
    proof {
        assert((len as int) * (lvl.num as int) < 0x100000000000000000000000000000000int)
            by (nonlinear_arith)
            requires
                0 <= len as int <= 0xffffffffffffffffint,
                0 <= lvl.num as int <= 0xffffffffffffffffint,
        ;
    }
    let prod: u128 = (len as u128) * (lvl.num as u128);
    prod % (lvl.den as u128)
}

/// The copy count of the policy.
pub fn copy_times(len: usize, lvl: &DamageLevel) -> (r: u128)
    requires
        lvl.wf(),
    ensures
        r as nat == spec_copy_times(len as nat, *lvl),
{
    let base = floor_scaled(len, lvl);
    let rem = scaled_rem(len, lvl);
    if base > 1 && rem == 0 {
        base - 1
    } else {
        base
    }
}

/// The Reed-Solomon factor of the policy: zero, one or two.
pub fn rs_factor(len: usize, lvl: &DamageLevel) -> (r: u128)
    requires
        lvl.wf(),
    ensures
        r as nat == spec_rs_factor(len as nat, *lvl),
        r <= 2,
{
    let base = floor_scaled(len, lvl);
    let rem = scaled_rem(len, lvl);
    if base > 1 && rem == 0 {
        2
    } else if 2 * rem >= lvl.den as u128 {
        1
    } else {
        0
    }
}

/// The Reed-Solomon parity length of the policy.
pub fn rs_ecc_len(len: usize, lvl: &DamageLevel) -> (r: u128)
    requires
        lvl.wf(),
    ensures
        r as nat == spec_rs_ecc_len(len as nat, *lvl),
{
    let f = rs_factor(len, lvl);
    proof {
        assert((len as int) * (f as int) <= 0xffffffffffffffffint * 2) by (nonlinear_arith)
            requires
                0 <= len as int <= 0xffffffffffffffffint,
                0 <= f as int <= 2,
        ;
    }
    (len as u128) * f
}

/// The allowed damage in bits.
pub fn damage_bits(len: usize, lvl: &DamageLevel) -> (r: u128)
    requires
        lvl.wf(),
        spec_floor_scaled(len as nat, *lvl) <= 0x10000000,
    ensures
        r as nat == spec_damage_bits(len as nat, *lvl),
{
    let base = floor_scaled(len, lvl);
    8 * base
}

} // verus!
