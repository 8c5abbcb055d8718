//! What the texts say, read back.
use vstd::arithmetic::power2::{lemma_pow2_unfold, pow2};
use vstd::prelude::*;

use crate::decimal::{decimal, digit};
use crate::labels::{elapsed_text, node_mark, node_text, usage_text};
use crate::size::{as_double, nearest_even, size_text, spacing, two_decimals, EXACT_LIMIT};

verus! {

/// The number that a digit stands for.
pub open spec fn digit_value(c: char) -> int {
    c as int - '0' as int
}

/// Whether a character is a decimal digit.
pub open spec fn is_digit(c: char) -> bool {
    '0' <= c <= '9'
}

/// The number that a run of digits stands for.
pub open spec fn value(digits: Seq<char>) -> int
    decreases digits.len(),
{
    if digits.len() == 0 {
        0
    } else {
        value(digits.drop_last()) * 10 + digit_value(digits.last())
    }
}

/// Whether a text is a numeral: digits, without a leading zero.
pub open spec fn is_numeral(text: Seq<char>) -> bool {
    &&& text.len() > 0
    &&& forall|i: int| 0 <= i < text.len() ==> is_digit(#[trigger] text[i])
    &&& text.len() > 1 ==> text[0] != '0'
}

/// Whether `q` is the whole number nearest to `n / d`, the even one where two are.
pub open spec fn is_nearest(n: int, d: int, q: int) -> bool {
    &&& -d <= 2 * (q * d - n) <= d
    &&& 2 * (q * d - n) == d || 2 * (q * d - n) == -d ==> q % 2 == 0
}

proof fn digit_reads(d: nat)
    requires
        d < 10,
    ensures
        is_digit(digit(d)),
        digit_value(digit(d)) == d,
        d > 0 ==> digit(d) != '0',
{
}

/// The decimal numeral of a number, read back, is the number.
pub proof fn decimal_reads(n: nat)
    ensures
        is_numeral(decimal(n)),
        value(decimal(n)) == n,
        n > 0 ==> decimal(n)[0] != '0',
    decreases n,
{
    let text = decimal(n);
    if n < 10 {
        digit_reads(n);
        assert(text.drop_last() =~= Seq::<char>::empty());
        assert(text.last() == digit(n));
        assert(value(text.drop_last()) == 0);
    } else {
        decimal_reads(n / 10);
        digit_reads(n % 10);
        assert(text.drop_last() =~= decimal(n / 10));
        assert(text.last() == digit(n % 10));
    }
}

proof fn nearest_even_reads(n: nat, d: nat)
    requires
        d > 0,
    ensures
        is_nearest(n as int, d as int, nearest_even(n, d) as int),
{
    let q = n / d;
    let r = n % d;
    vstd::arithmetic::div_mod::lemma_fundamental_div_mod(n as int, d as int);
    assert(q * d == n - r) by (nonlinear_arith)
        requires
            n == d * q + r,
    ;
    assert((q + 1) * d == q * d + d) by (nonlinear_arith);
}

/// The spacing of the double-precision numbers around `n` is the power of two that leaves 53 bits.
proof fn spacing_reads(n: nat) -> (e: nat)
    ensures
        spacing(n) == pow2(e),
        n < EXACT_LIMIT ==> e == 0,
        n >= EXACT_LIMIT ==> 4_503_599_627_370_496 * pow2(e) <= n,
        n < 9_007_199_254_740_992 * pow2(e),
    decreases n,
{
    vstd::arithmetic::power2::lemma2_to64();
    if n < EXACT_LIMIT {
        0
    } else {
        let e = spacing_reads(n / 2);
        lemma_pow2_unfold(e + 1);
        e + 1
    }
}

/// What the text of a byte count says.
///
/// Below 1024 it is the count and `B`. Otherwise it is a number with two decimals, a space and the
/// unit. The unit is the largest that the count fills. The number is the one of two decimals that
/// is nearest to `double` in that unit; `double` is the double-precision number nearest to the
/// count, which is the count itself up to 53 bits.
pub proof fn size_reads(bytes: nat) -> (r: (Seq<char>, char, char, nat, nat, nat))
    ensures
        ({
            let (whole, tenth, hundredth, double, q, e) = r;
            let hundredths = value(whole) * 100 + digit_value(tenth) * 10 + digit_value(hundredth);
            &&& is_numeral(whole)
            &&& is_digit(tenth)
            &&& is_digit(hundredth)
            &&& bytes < 1024 ==> value(whole) == bytes && size_text(bytes) == whole + seq![' ', 'B']
            &&& 1024 <= bytes < 1_048_576 ==> size_text(bytes) == whole + seq![
                '.',
                tenth,
                hundredth,
                ' ',
                'K',
                'B',
            ] && is_nearest(100 * (double as int), 1024, hundredths)
            &&& 1_048_576 <= bytes < 1_073_741_824 ==> size_text(bytes) == whole + seq![
                '.',
                tenth,
                hundredth,
                ' ',
                'M',
                'B',
            ] && is_nearest(100 * (double as int), 1_048_576, hundredths)
            &&& 1_073_741_824 <= bytes < 1_099_511_627_776 ==> size_text(bytes) == whole + seq![
                '.',
                tenth,
                hundredth,
                ' ',
                'G',
                'B',
            ] && is_nearest(100 * (double as int), 1_073_741_824, hundredths)
            &&& 1_099_511_627_776 <= bytes ==> size_text(bytes) == whole + seq![
                '.',
                tenth,
                hundredth,
                ' ',
                'T',
                'B',
            ] && is_nearest(100 * (double as int), 1_099_511_627_776, hundredths)
            &&& bytes < 9_007_199_254_740_992 ==> double == bytes
            &&& bytes >= 9_007_199_254_740_992 ==> {
                &&& double == q * pow2(e)
                &&& 4_503_599_627_370_496 * pow2(e) <= bytes < 9_007_199_254_740_992 * pow2(e)
                &&& is_nearest(bytes as int, pow2(e) as int, q as int)
            }
        }),
{
    let e = spacing_reads(bytes);
    vstd::arithmetic::power2::lemma_pow2_pos(e);
    vstd::arithmetic::power2::lemma2_to64();
    let q = nearest_even(bytes, spacing(bytes));
    nearest_even_reads(bytes, spacing(bytes));
    let double = as_double(bytes);
    if bytes < EXACT_LIMIT {
        assert(bytes / 1 == bytes);
        assert(bytes % 1 == 0);
        assert(q == bytes);
        assert(double == bytes);
    }
    if bytes < 1024 {
        decimal_reads(bytes);
        digit_reads(0);
        reveal_strlit(" B");
        assert(size_text(bytes) =~= decimal(bytes) + seq![' ', 'B']);
        (decimal(bytes), digit(0), digit(0), double, q, e)
    } else {
        let unit: nat = if bytes < 1_048_576 {
            1024
        } else if bytes < 1_073_741_824 {
            1_048_576
        } else if bytes < 1_099_511_627_776 {
            1_073_741_824
        } else {
            1_099_511_627_776
        };
        let hundredths = nearest_even(double * 100, unit);
        nearest_even_reads(double * 100, unit);
        let whole = decimal(hundredths / 100);
        let tenth = digit(hundredths / 10 % 10);
        let hundredth = digit(hundredths % 10);
        decimal_reads(hundredths / 100);
        digit_reads(hundredths / 10 % 10);
        digit_reads(hundredths % 10);
        assert(hundredths == (hundredths / 100) * 100 + (hundredths / 10 % 10) * 10 + hundredths
            % 10);
        reveal_strlit(" KB");
        reveal_strlit(" MB");
        reveal_strlit(" GB");
        reveal_strlit(" TB");
        let two = two_decimals(hundredths);
        assert(two =~= whole + seq!['.', tenth, hundredth]);
        let letter = if bytes < 1_048_576 {
            'K'
        } else if bytes < 1_073_741_824 {
            'M'
        } else if bytes < 1_099_511_627_776 {
            'G'
        } else {
            'T'
        };
        assert(size_text(bytes) =~= whole + seq!['.', tenth, hundredth, ' ', letter, 'B']);
        (whole, tenth, hundredth, double, q, e)
    }
}

/// What the text of a duration says: the seconds below one minute; else the minutes and the seconds
/// left, which together are the duration.
pub proof fn elapsed_reads(seconds: nat) -> (r: (Seq<char>, Seq<char>))
    ensures
        is_numeral(r.0),
        is_numeral(r.1),
        seconds < 60 ==> elapsed_text(seconds) == r.1 + seq!['s'] && value(r.1) == seconds,
        seconds >= 60 ==> elapsed_text(seconds) == r.0 + seq!['m', ' '] + r.1 + seq!['s'],
        seconds >= 60 ==> 0 <= value(r.1) < 60 && value(r.0) * 60 + value(r.1) == seconds,
{
    decimal_reads(seconds / 60);
    decimal_reads(seconds % 60);
    reveal_strlit("s");
    reveal_strlit("m ");
    assert("s"@ =~= seq!['s']);
    assert("m "@ =~= seq!['m', ' ']);
    (decimal(seconds / 60), decimal(seconds % 60))
}

/// What the text of an entry says: the icon of its kind, its whole name, and, three spaces on, three
/// dots while its size is pending, else its size.
pub proof fn node_reads(is_dir: bool, name: Seq<char>, size: nat, size_pending: bool)
    ensures
        ({
            let text = node_text(is_dir, name, size, size_pending);
            let n = name.len() as int;
            &&& text.len() >= n + 5
            &&& text[0] as int == (if is_dir {
                0x1F4C1int
            } else {
                0x1F4C4int
            })
            &&& text[1] == ' '
            &&& text.subrange(2, 2 + n) == name
            &&& text.subrange(2 + n, 5 + n) == seq![' ', ' ', ' ']
            &&& size_pending ==> text.skip(5 + n) == seq!['.', '.', '.']
            &&& !size_pending ==> text.skip(5 + n) == size_text(size)
        }),
{
    reveal_strlit("\u{1F4C1}");
    reveal_strlit("\u{1F4C4}");
    reveal_strlit(" ");
    reveal_strlit("   ");
    reveal_strlit("...");
    let text = node_text(is_dir, name, size, size_pending);
    let n = name.len() as int;
    assert(text.subrange(2, 2 + n) =~= name);
    assert(text.subrange(2 + n, 5 + n) =~= seq![' ', ' ', ' ']);
    if size_pending {
        assert(text.skip(5 + n) =~= seq!['.', '.', '.']);
    } else {
        assert(text.skip(5 + n) =~= size_text(size));
    }
}

/// The mark before an entry: a triangle that points down before an unfolded directory, one that
/// points right before a folded one, a space before a file.
pub proof fn mark_reads(is_open: bool)
    ensures
        node_mark(true, true) as int == 0x25BC,
        node_mark(true, false) as int == 0x25B6,
        node_mark(false, is_open) == ' ',
{
}

/// What the text on how full a disk is says: first the available space, then the total space, then
/// the part that is used.
pub proof fn usage_reads(available: nat, total: nat, percent: Seq<char>)
    ensures
        ({
            let text = usage_text(available, total, percent);
            let a = size_text(available).len() as int;
            let b = size_text(total).len() as int;
            let c = percent.len() as int;
            &&& text.len() == a + b + c + 18
            &&& text.take(a) == size_text(available)
            &&& text.subrange(a, a + 9) == seq![' ', 'f', 'r', 'e', 'e', ' ', 'o', 'f', ' ']
            &&& text.subrange(a + 9, a + 9 + b) == size_text(total)
            &&& text.subrange(a + 9 + b, a + 11 + b) == seq![' ', '(']
            &&& text.subrange(a + 11 + b, a + 11 + b + c) == percent
            &&& text.skip(a + 11 + b + c) == seq!['%', ' ', 'u', 's', 'e', 'd', ')']
        }),
{
    reveal_strlit(" free of ");
    reveal_strlit(" (");
    reveal_strlit("% used)");
    let text = usage_text(available, total, percent);
    let a = size_text(available).len() as int;
    let b = size_text(total).len() as int;
    let c = percent.len() as int;
    assert(text.take(a) =~= size_text(available));
    assert(text.subrange(a, a + 9) =~= seq![' ', 'f', 'r', 'e', 'e', ' ', 'o', 'f', ' ']);
    assert(text.subrange(a + 9, a + 9 + b) =~= size_text(total));
    assert(text.subrange(a + 9 + b, a + 11 + b) =~= seq![' ', '(']);
    assert(text.subrange(a + 11 + b, a + 11 + b + c) =~= percent);
    assert(text.skip(a + 11 + b + c) =~= seq!['%', ' ', 'u', 's', 'e', 'd', ')']);
}

} // verus!
