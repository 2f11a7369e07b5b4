//! Decimal rendering of unsigned numbers, with optional zero padding.
use vstd::prelude::*;

verus! {

/// Number of decimal digits needed to write `n` (at least one).
pub open spec fn decimal_digits(n: nat) -> nat
    decreases n,
{
    if n < 10 {
        1
    } else {
        1 + decimal_digits(n / 10)
    }
}

/// The character of the decimal digit `d` (for `0 <= d < 10`).
pub open spec fn digit_char(d: nat) -> char {
    (d + 48) as char
}

/// The decimal representation of `n`, most significant digit first.
pub open spec fn decimal(n: nat) -> Seq<char>
    decreases n,
{
    if n < 10 {
        seq![digit_char(n)]
    } else {
        decimal(n / 10).push(digit_char(n % 10))
    }
}

/// `n` in decimal, padded on the left with `'0'` up to `width` characters.
pub open spec fn zero_padded(n: nat, width: nat) -> Seq<char> {
    let d = decimal(n);
    if d.len() < width {
        Seq::new((width - d.len()) as nat, |i: int| '0') + d
    } else {
        d
    }
}

/// A positive number has no more decimal digits than its value.
pub proof fn lemma_decimal_digits_bounded(n: nat)
    requires
        n >= 1,
    ensures
        decimal_digits(n) <= n,
    decreases n,
{
    if n >= 10 {
        lemma_decimal_digits_bounded(n / 10);
    }
}

/// The decimal representation has `decimal_digits(n)` characters.
pub proof fn lemma_decimal_len(n: nat)
    ensures
        decimal(n).len() == decimal_digits(n),
    decreases n,
{
    if n >= 10 {
        lemma_decimal_len(n / 10);
    }
}

/// `decimal_digits(n)` is the `d` with `10^(d-1) <= n < 10^d` (the lower bound for `d > 1`).
pub proof fn lemma_decimal_digits_range(n: nat)
    ensures
        n < vstd::arithmetic::power::pow(10, decimal_digits(n)),
        decimal_digits(n) > 1 ==> vstd::arithmetic::power::pow(10, (decimal_digits(n) - 1) as nat)
            <= n,
    decreases n,
{
    vstd::arithmetic::power::lemma_pow1(10);
    if n >= 10 {
        lemma_decimal_digits_range(n / 10);
        let d = decimal_digits(n / 10);
        vstd::arithmetic::power::lemma_pow_adds(10, 1, d);
        assert(vstd::arithmetic::power::pow(10, d + 1) == 10 * vstd::arithmetic::power::pow(10, d));
        if d > 1 {
            vstd::arithmetic::power::lemma_pow_adds(10, 1, (d - 1) as nat);
        } else {
            vstd::arithmetic::power::lemma_pow0(10);
        }
    }
}

/// Counts the base-10 digits of `number`.
pub fn count_digits_base_10(number: usize) -> (digits: usize)
    ensures
        digits == decimal_digits(number as nat),
{
    let ghost initial = number;
    let mut number = number;
    let mut digits: usize = 1;
    while number >= 10
        invariant
            number <= initial,
            digits + decimal_digits(number as nat) == decimal_digits(initial as nat) + 1,
        decreases number,
    {
        proof {
            lemma_decimal_digits_bounded(initial as nat);
            assert(decimal_digits((number / 10) as nat) >= 1);
        }
        number = number / 10;
        digits = digits + 1;
    }
    digits
}

/// The character of a single decimal digit.
fn digit_to_char(d: usize) -> (c: char)
    requires
        d < 10,
    ensures
        c == digit_char(d as nat),
{
    let b: u8 = d as u8 + 48;
    b as char
}

/// Appends the decimal representation of `n` to `out`.
pub fn push_decimal(out: &mut Vec<char>, n: usize)
    ensures
        final(out)@ == old(out)@ + decimal(n as nat),
    decreases n,
{
    if n >= 10 {
        push_decimal(out, n / 10);
    }
    let c = digit_to_char(n % 10);
    out.push(c);
    proof {
        if n >= 10 {
            assert(decimal(n as nat) == decimal((n / 10) as nat).push(digit_char((n % 10) as nat)));
        }
    }
    assert(out@ =~= old(out)@ + decimal(n as nat));
}

/// Appends `n` in decimal, zero padded on the left to at least `width` characters.
pub fn push_zero_padded(out: &mut Vec<char>, n: usize, width: usize)
    ensures
        final(out)@ == old(out)@ + zero_padded(n as nat, width as nat),
{
    let len = count_digits_base_10(n);
    proof {
        lemma_decimal_len(n as nat);
    }
    let ghost start = out@;
    if len < width {
        let mut i: usize = len;
        while i < width
            invariant
                len <= i <= width,
                len == decimal(n as nat).len(),
                out@ == start + Seq::new((i - len) as nat, |j: int| '0'),
            decreases width - i,
        {
            out.push('0');
            i = i + 1;
            assert(out@ =~= start + Seq::new((i - len) as nat, |j: int| '0'));
        }
    }
    push_decimal(out, n);
    assert(out@ =~= start + zero_padded(n as nat, width as nat));
}

} // verus!

verus! {

/// Zero padding yields at least `width` characters and never truncates.
pub proof fn lemma_zero_padded_len(n: nat, width: nat)
    ensures
        zero_padded(n, width).len() == if decimal_digits(n) < width {
            width
        } else {
            decimal_digits(n)
        },
        zero_padded(n, width).subrange(
            zero_padded(n, width).len() - decimal_digits(n),
            zero_padded(n, width).len() as int,
        ) == decimal(n),
{
    lemma_decimal_len(n);
    let d = decimal(n);
    if d.len() < width {
        let z = Seq::new((width - d.len()) as nat, |i: int| '0') + d;
        assert(z.subrange(z.len() - d.len(), z.len() as int) =~= d);
    } else {
        assert(d.subrange(0, d.len() as int) =~= d);
    }
}

/// More is never written with fewer digits.
pub proof fn lemma_decimal_digits_monotone(a: nat, b: nat)
    requires
        a <= b,
    ensures
        decimal_digits(a) <= decimal_digits(b),
    decreases b,
{
    if a >= 10 {
        lemma_decimal_digits_monotone(a / 10, b / 10);
    }
}

/// Every `usize` is written with between 1 and 20 digits.
pub proof fn lemma_decimal_digits_of_usize(n: usize)
    ensures
        1 <= decimal_digits(n as nat) <= 20,
{
    lemma_decimal_digits_monotone(n as nat, 0xffff_ffff_ffff_ffff);
    assert(decimal_digits(0xffff_ffff_ffff_ffff) == 20) by {
        reveal_with_fuel(decimal_digits, 21);
    }
}

} // verus!

verus! {

/// The number a string of decimal digits stands for, most significant first.
pub open spec fn digits_value(s: Seq<char>) -> int
    decreases s.len(),
{
    if s.len() == 0 {
        0
    } else {
        digits_value(s.drop_last()) * 10 + (s.last() as int - 48)
    }
}

proof fn lemma_digit_char_value(d: nat)
    requires
        d < 10,
    ensures
        digit_char(d) as int == d + 48,
        '0' <= digit_char(d) <= '9',
{
    if d == 0 {
        assert(digit_char(d) == '0');
    } else if d == 1 {
        assert(digit_char(d) == '1');
    } else if d == 2 {
        assert(digit_char(d) == '2');
    } else if d == 3 {
        assert(digit_char(d) == '3');
    } else if d == 4 {
        assert(digit_char(d) == '4');
    } else if d == 5 {
        assert(digit_char(d) == '5');
    } else if d == 6 {
        assert(digit_char(d) == '6');
    } else if d == 7 {
        assert(digit_char(d) == '7');
    } else if d == 8 {
        assert(digit_char(d) == '8');
    } else {
        assert(digit_char(d) == '9');
    }
}

/// `decimal(n)` is the positional decimal representation of `n`: all its
/// characters are digits `'0'..='9'`, it has no leading zero, and read back
/// most significant digit first it is `n` again.
pub proof fn lemma_decimal_reads_back(n: nat)
    ensures
        digits_value(decimal(n)) == n,
        forall|i: int| 0 <= i < decimal(n).len() ==> '0' <= #[trigger] decimal(n)[i] <= '9',
        n >= 10 ==> decimal(n)[0] != '0',
    decreases n,
{
    lemma_digit_char_value(n % 10);
    if n < 10 {
        assert(decimal(n) == seq![digit_char(n)]);
        assert(seq![digit_char(n)].drop_last() =~= Seq::<char>::empty());
        assert(digits_value(Seq::<char>::empty()) == 0);
        assert(digits_value(decimal(n)) == digits_value(Seq::<char>::empty()) * 10 + (
        digit_char(n) as int - 48));
    } else {
        lemma_decimal_reads_back(n / 10);
        let d = decimal(n);
        assert(d.drop_last() =~= decimal(n / 10));
        assert(d.last() == digit_char(n % 10));
        assert(digits_value(d) == digits_value(decimal(n / 10)) * 10 + (digit_char(n % 10) as int
            - 48));
        assert(digits_value(d) == (n / 10) * 10 + n % 10);
        assert(d[0] == decimal(n / 10)[0]);
        if n / 10 < 10 {
            assert(decimal(n / 10)[0] == digit_char(n / 10));
        }
    }
}

/// Zero padding adds only zeros in front, so the padded text reads back as
/// `n` as well.
pub proof fn lemma_zero_padded_reads_back(n: nat, width: nat)
    ensures
        digits_value(zero_padded(n, width)) == n,
{
    lemma_decimal_reads_back(n);
    let d = decimal(n);
    if d.len() < width {
        lemma_leading_zeros_value((width - d.len()) as nat, d);
    }
}

proof fn lemma_leading_zeros_value(k: nat, d: Seq<char>)
    ensures
        digits_value(Seq::new(k, |i: int| '0') + d) == digits_value(d) + digits_value(
            Seq::new(k, |i: int| '0'),
        ) * vstd::arithmetic::power::pow(10, d.len()),
        digits_value(Seq::new(k, |i: int| '0')) == 0,
    decreases d.len(), k,
{
    let z = Seq::new(k, |i: int| '0');
    if d.len() == 0 {
        assert(z + d =~= z);
        vstd::arithmetic::power::lemma_pow0(10);
        if k > 0 {
            assert(z.drop_last() =~= Seq::new((k - 1) as nat, |i: int| '0'));
            lemma_leading_zeros_value((k - 1) as nat, d);
        }
    } else {
        lemma_leading_zeros_value(k, d.drop_last());
        assert((z + d).drop_last() =~= z + d.drop_last());
        vstd::arithmetic::power::lemma_pow_adds(10, 1, (d.len() - 1) as nat);
        vstd::arithmetic::power::lemma_pow1(10);
    }
}

} // verus!
