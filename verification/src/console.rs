//! Numbers as the console prints them.

use vstd::prelude::*;

verus! {

/// The ASCII character of a hexadecimal digit, lower case.
pub open spec fn spec_hex_digit(value: u8) -> u8 {
    if value <= 9 { (48 + value) as u8 } else { (97 + (value - 10)) as u8 }
}

pub fn hex_digit(value: u8) -> (digit: u8)
    requires
        value < 16,
    ensures
        digit == spec_hex_digit(value),
{
    if value <= 9 {
        48u8 + value
    } else {
        97u8 + (value - 10)
    }
}

/// The hexadecimal digit of `value` at nibble `k`, counting from the most significant.
pub open spec fn nibble(value: u64, k: int) -> u8 {
    ((value >> ((60 - 4 * k) as u64)) & 0xf) as u8
}

/// `0x` and the sixteen hexadecimal digits of `value`, most significant first.
pub fn hex_u64(value: u64) -> (text: Vec<u8>)
    ensures
        text@.len() == 18,
        text@[0] == 48,
        text@[1] == 120,
        forall|k: int| 0 <= k < 16 ==> #[trigger] text@[k + 2] == spec_hex_digit(nibble(value, k)),
{
    let mut text: Vec<u8> = Vec::new();
    text.push(48u8);
    text.push(120u8);
    let mut k: u64 = 0;
    while k < 16
        invariant
            k <= 16,
            text@.len() == k + 2,
            text@[0] == 48,
            text@[1] == 120,
            forall|j: int| 0 <= j < k ==> #[trigger] text@[j + 2] == spec_hex_digit(nibble(value, j)),
        decreases 16 - k,
    {
        let shift = 60 - 4 * k;
        let n = ((value >> shift) & 0xf) as u8;
        assert((value >> shift) & 0xf < 16) by (bit_vector);
        assert(n == nibble(value, k as int));
        text.push(hex_digit(n));
        k = k + 1;
    }
    text
}

/// The decimal digits of `value`, most significant first, without leading zeros
/// (a single `0` for zero).
pub open spec fn spec_decimal(value: nat) -> Seq<u8>
    decreases value,
{
    if value < 10 {
        seq![(48 + value) as u8]
    } else {
        spec_decimal(value / 10).push((48 + value % 10) as u8)
    }
}

/// The decimal text of `value`.
pub fn decimal_u64(value: u64) -> (text: Vec<u8>)
    ensures
        text@ == spec_decimal(value as nat),
    decreases value,
{
    if value < 10 {
        let mut text: Vec<u8> = Vec::new();
        text.push(48u8 + value as u8);
        text
    } else {
        let mut text = decimal_u64(value / 10);
        text.push(48u8 + (value % 10) as u8);
        text
    }
}


/// The hexadecimal digits of `value`, most significant first, without leading zeros
/// (a single `0` for zero).
pub open spec fn spec_hex_trimmed(value: nat) -> Seq<u8>
    decreases value,
{
    if value < 16 {
        seq![spec_hex_digit(value as u8)]
    } else {
        spec_hex_trimmed(value / 16).push(spec_hex_digit((value % 16) as u8))
    }
}

/// The hexadecimal text of `value` without leading zeros, as fault reports print it.
pub fn hex_u64_trimmed(value: u64) -> (text: Vec<u8>)
    ensures
        text@ == spec_hex_trimmed(value as nat),
    decreases value,
{
    if value < 16 {
        let mut text: Vec<u8> = Vec::new();
        text.push(hex_digit(value as u8));
        text
    } else {
        let mut text = hex_u64_trimmed(value / 16);
        text.push(hex_digit((value % 16) as u8));
        text
    }
}

} // verus!
