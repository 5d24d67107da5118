//! Decimal and hexadecimal renderings of machine integers.
use vstd::prelude::*;

verus! {

/// The decimal digits of `n`, most significant first, without leading zeros
/// (zero is the single digit `0`).
pub open spec fn digits(n: nat, base: nat) -> Seq<u8>
    recommends
        2 <= base <= 16,
    decreases n,
{
    if n < base || base < 2 {
        seq![digit_char(n)]
    } else {
        proof {
            assert(n / base < n) by (nonlinear_arith)
                requires
                    n >= base,
                    base >= 2,
            ;
        }
        digits(n / base, base).push(digit_char(n % base))
    }
}

/// The character of one digit: `0`-`9`, then `a`-`f`.
pub open spec fn digit_char(d: nat) -> u8 {
    if d < 10 {
        (48 + d) as u8
    } else {
        (87 + d) as u8
    }
}

/// The decimal rendering of an integer, with a leading `-` when negative.
pub open spec fn decimal(n: int) -> Seq<u8> {
    if n < 0 {
        seq![45u8] + digits((-n) as nat, 10)
    } else {
        digits(n as nat, 10)
    }
}

/// Appends the digits of `n` in `base` to `out`.
pub fn push_digits(out: &mut Vec<u8>, n: u64, base: u64)
    requires
        2 <= base <= 16,
    ensures
        final(out)@ == old(out)@ + digits(n as nat, base as nat),
    decreases n,
{
    let ghost before = out@;
    if n >= base {
        assert(n / base < n) by (nonlinear_arith)
            requires
                n >= base,
                base >= 2,
        ;
        push_digits(out, n / base, base);
    }
    let d = n % base;
    assert(d < 16);
    let c: u8 = if d < 10 { 48 + d as u8 } else { 87 + d as u8 };
    assert(c == digit_char(d as nat));
    out.push(c);
    if n >= base {
        assert(digits(n as nat, base as nat) == digits((n / base) as nat, base as nat).push(
            digit_char((n % base) as nat),
        ));
        assert(out@ =~= before + digits(n as nat, base as nat));
    } else {
        assert(n % base == n) by (nonlinear_arith)
            requires
                n < base,
        ;
        assert(out@ =~= before + digits(n as nat, base as nat));
    }
}

/// The decimal rendering of `n`.
pub fn decimal_bytes(n: i64) -> (r: Vec<u8>)
    ensures
        r@ == decimal(n as int),
{
    let mut out: Vec<u8> = Vec::new();
    if n < 0 {
        out.push(45u8);
        let m: u64 = ((-(n + 1)) as u64) + 1;
        assert(m == -(n as int));
        push_digits(&mut out, m, 10);
    } else {
        push_digits(&mut out, n as u64, 10);
    }
    assert(out@ =~= decimal(n as int));
    out
}

/// The lowercase hexadecimal rendering of `n`, without prefix.
pub fn hex_bytes(n: u64) -> (r: Vec<u8>)
    ensures
        r@ == digits(n as nat, 16),
{
    let mut out: Vec<u8> = Vec::new();
    push_digits(&mut out, n, 16);
    assert(out@ =~= digits(n as nat, 16));
    out
}

} // verus!
