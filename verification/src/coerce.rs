//! Whether a whole number fits a column of a given width in bits: the last step of turning a
//! number that was rounded into a value.

use crate::data::{DataType, Value};
use vstd::prelude::*;

verus! {

/// Two to the power `e`.
pub open spec fn two_to(e: nat) -> nat
    decreases e,
{
    if e == 0 {
        1
    } else {
        2 * two_to((e - 1) as nat)
    }
}

/// Greater exponents give no lesser powers.
pub proof fn lemma_two_to_grows(a: nat, b: nat)
    requires
        a <= b,
    ensures
        two_to(a) <= two_to(b),
    decreases b - a,
{
    if a < b {
        lemma_two_to_grows(a, (b - 1) as nat);
    }
}

/// Two to the power 63.
pub proof fn lemma_two_to_63()
    ensures
        two_to(63) == 0x8000_0000_0000_0000,
{
    reveal_with_fuel(two_to, 64);
}

/// Two to the power `e`.
pub fn power_of_two(e: u32) -> (p: u64)
    requires
        e < 64,
    ensures
        p == two_to(e as nat),
{
    let mut p: u64 = 1;
    let mut i: u32 = 0;
    while i < e
        invariant
            i <= e,
            e < 64,
            p == two_to(i as nat),
        decreases e - i,
    {
        proof {
            lemma_two_to_grows((i + 1) as nat, 63);
            lemma_two_to_63();
        }
        p = p * 2;
        i += 1;
    }
    p
}

/// Whether the whole number `n` fits a signed column of `bits` bits. Columns of 64 bits
/// and more take every number that can be handed over; a column without bits takes none.
pub open spec fn int_fits(n: int, bits: nat) -> bool {
    bits >= 64 || (bits >= 1 && -two_to((bits - 1) as nat) <= n < two_to((bits - 1) as nat))
}

/// Whether the whole number `n`, which is not negative, fits an unsigned column of `bits`
/// bits.
pub open spec fn uint_fits(n: int, bits: nat) -> bool {
    bits >= 64 || n < two_to(bits)
}

/// The value of the whole number `n` in a signed column of `bits` bits, or `None` where the
/// number is out of the bounds of the column.
pub fn int_of_width(n: i64, bits: u32) -> (r: Option<DataType>)
    ensures
        r.is_some() == int_fits(n as int, bits as nat),
        r.is_some() ==> r.unwrap()@ == Value::Int(n as int),
{
    if bits >= 64 {
        return Some(DataType::Int(n));
    }
    if bits == 0 {
        return None;
    }
    let limit: u64 = power_of_two(bits - 1);
    proof {
        lemma_two_to_grows((bits - 1) as nat, 63);
        lemma_two_to_63();
    }
    let fits: bool = if n >= 0 {
        (n as u64) < limit
    } else {
        // -limit <= n, with n + 1 <= 0 so that its opposite can be taken
        ((-(n + 1)) as u64) < limit
    };
    if fits {
        Some(DataType::Int(n))
    } else {
        None
    }
}

/// The value of the whole number `n` in an unsigned column of `bits` bits, or `None` where
/// the number is out of the bounds of the column.
pub fn uint_of_width(n: u64, bits: u32) -> (r: Option<DataType>)
    ensures
        r.is_some() == uint_fits(n as int, bits as nat),
        r.is_some() ==> r.unwrap()@ == Value::UnsignedInt(n as int),
{
    if bits >= 64 {
        return Some(DataType::UnsignedInt(n));
    }
    let limit: u64 = power_of_two(bits);
    if n < limit {
        Some(DataType::UnsignedInt(n))
    } else {
        None
    }
}

} // verus!
