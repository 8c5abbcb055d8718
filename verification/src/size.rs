//! Byte counts as text.
use vstd::prelude::*;
use vstd::string::StringExecFns;

use crate::decimal::{push_decimal, push_digit};

verus! {

/// Bytes in a kilobyte.
pub const KB: u64 = 1024;

/// Bytes in a megabyte.
pub const MB: u64 = 1_048_576;

/// Bytes in a gigabyte.
pub const GB: u64 = 1_073_741_824;

/// Bytes in a terabyte.
pub const TB: u64 = 1_099_511_627_776;

/// The first whole number whose neighbours a double-precision number cannot all tell apart.
pub const EXACT_LIMIT: u64 = 9_007_199_254_740_992;

/// `n / d` rounded to the nearest whole number, to the even one of the two when both are as near.
pub open spec fn nearest_even(n: nat, d: nat) -> nat
    recommends
        d > 0,
{
    let q = n / d;
    let r = n % d;
    if 2 * r < d || (2 * r == d && q % 2 == 0) {
        q
    } else {
        q + 1
    }
}

/// The distance between the double-precision numbers around `n`, for `n` of at least one.
pub open spec fn spacing(n: nat) -> nat
    decreases n,
{
    if n < EXACT_LIMIT {
        1
    } else {
        2 * spacing(n / 2)
    }
}

/// The double-precision number nearest to `n`.
pub open spec fn as_double(n: nat) -> nat {
    nearest_even(n, spacing(n)) * spacing(n)
}

/// `hundredths / 100` with two decimals.
pub open spec fn two_decimals(hundredths: nat) -> Seq<char> {
    crate::decimal::decimal(hundredths / 100) + seq![
        '.',
        crate::decimal::digit(hundredths / 10 % 10),
        crate::decimal::digit(hundredths % 10),
    ]
}

/// `bytes` in the given unit, with two decimals.
pub open spec fn in_unit(bytes: nat, unit: nat) -> Seq<char> {
    two_decimals(nearest_even(as_double(bytes) * 100, unit))
}

/// The text of a byte count: in the largest unit that it fills, with two decimals, or in bytes.
pub open spec fn size_text(bytes: nat) -> Seq<char> {
    if bytes >= TB {
        in_unit(bytes, TB as nat) + " TB"@
    } else if bytes >= GB {
        in_unit(bytes, GB as nat) + " GB"@
    } else if bytes >= MB {
        in_unit(bytes, MB as nat) + " MB"@
    } else if bytes >= KB {
        in_unit(bytes, KB as nat) + " KB"@
    } else {
        crate::decimal::decimal(bytes) + " B"@
    }
}

/// A rounded quotient is off by at most one half.
pub proof fn nearest_even_is_nearest(n: nat, d: nat)
    requires
        d > 0,
    ensures
        2 * (nearest_even(n, d) * d) <= 2 * n + d,
        2 * n <= 2 * (nearest_even(n, d) * d) + d,
{
    let q = n / d;
    let r = n % d;
    vstd::arithmetic::div_mod::lemma_fundamental_div_mod(n as int, d as int);
    assert(q * d == n - r) by (nonlinear_arith)
        requires
            n == d * q + r,
    ;
    assert((q + 1) * d == q * d + d) by (nonlinear_arith);
}

/// Divides and rounds to the nearest whole number, ties to even.
fn divide_to_even(n: u128, d: u128) -> (q: u128)
    requires
        d > 0,
        n + d <= u128::MAX,
    ensures
        q == nearest_even(n as nat, d as nat),
{
    let q: u128 = n / d;
    let r: u128 = n % d;
    assert(q <= n) by (nonlinear_arith)
        requires
            q == n / d,
            d > 0,
    ;
    if r < d - r || (r == d - r && q % 2 == 0) {
        q
    } else {
        q + 1
    }
}

/// The spacing of the double-precision numbers around a 64-bit count.
fn double_spacing(n: u64) -> (s: u64)
    ensures
        s == spacing(n as nat),
        1 <= s <= 4096,
        s <= 1 || s * 4_503_599_627_370_496 <= n,
    decreases n,
{
    if n < EXACT_LIMIT {
        1
    } else {
        let half: u64 = double_spacing(n / 2);
        2 * half
    }
}

/// Appends `bytes`, in the given unit, with two decimals.
fn push_in_unit(out: &mut String, bytes: u64, unit: u64)
    requires
        unit >= 1024,
    ensures
        final(out)@ == old(out)@ + in_unit(bytes as nat, unit as nat),
{
    let s: u64 = double_spacing(bytes);
    let q: u128 = divide_to_even(bytes as u128, s as u128);
    proof {
        nearest_even_is_nearest(bytes as nat, s as nat);
        assert(q * s <= 18_446_744_073_709_554_000) by (nonlinear_arith)
            requires
                2 * (q * s) <= 2 * bytes + s,
                bytes <= 18_446_744_073_709_551_615,
                s <= 4096,
        ;
    }
    let double: u128 = q * (s as u128);
    let hundredths: u128 = divide_to_even(double * 100, unit as u128);
    proof {
        nearest_even_is_nearest((double * 100) as nat, unit as nat);
        assert(hundredths <= 1_801_439_850_948_200_000) by (nonlinear_arith)
            requires
                2 * (hundredths * unit) <= 2 * (double * 100) + unit,
                double <= 18_446_744_073_709_554_000,
                unit >= 1024,
        ;
    }
    let h: u64 = hundredths as u64;
    push_decimal(out, h / 100);
    out.append(".");
    push_digit(out, h / 10 % 10);
    push_digit(out, h % 10);
    proof {
        reveal_strlit(".");
    }
    assert(out@ =~= old(out)@ + in_unit(bytes as nat, unit as nat));
}

/// The text of a byte count.
pub fn format_size(bytes: u64) -> (text: String)
    ensures
        text@ == size_text(bytes as nat),
{
    let mut out = String::new();
    if bytes >= TB {
        push_in_unit(&mut out, bytes, TB);
        out.append(" TB");
    } else if bytes >= GB {
        push_in_unit(&mut out, bytes, GB);
        out.append(" GB");
    } else if bytes >= MB {
        push_in_unit(&mut out, bytes, MB);
        out.append(" MB");
    } else if bytes >= KB {
        push_in_unit(&mut out, bytes, KB);
        out.append(" KB");
    } else {
        push_decimal(&mut out, bytes);
        out.append(" B");
    }
    assert(out@ =~= size_text(bytes as nat));
    out
}

} // verus!
