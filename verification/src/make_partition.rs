//! Number-of-partitions handling: powers of two and base-2 logarithms.
use vstd::prelude::*;

use vstd::string::StringSliceAdditionalSpecFns;
use crate::number::{parse_u32, spec_int_error_message, spec_parse_u32};

verus! {

/// `2^e`
pub open spec fn two_pow(e: nat) -> nat
    decreases e,
{
    if e == 0 {
        1
    } else {
        2 * two_pow((e - 1) as nat)
    }
}

/// Whether `n` is a power of two (`1, 2, 4, ...`).
pub open spec fn is_power_of_two(n: nat) -> bool
    decreases n,
{
    if n == 0 {
        false
    } else if n == 1 {
        true
    } else {
        n % 2 == 0 && is_power_of_two(n / 2)
    }
}

/// Whether `n` is a power of two.
pub fn u32_is_power_of_two(n: u32) -> (r: bool)
    ensures
        r == is_power_of_two(n as nat),
{
    if n == 0 {
        return false;
    }
    let mut m = n;
    while m > 1 && m % 2 == 0
        invariant
            m >= 1,
            is_power_of_two(n as nat) == is_power_of_two(m as nat),
        decreases m,
    {
        m = m / 2;
    }
    m == 1
}

/// Parse the number of partitions, which has to be a power of two.
///
/// Errors are the messages of `u32::from_str` or "has to be a power of two".
pub fn parse_npartitions(s: &str) -> (r: Result<u32, String>)
    ensures
        match spec_parse_u32(s.spec_bytes()) {
            Ok(n) => if is_power_of_two(n as nat) {
                r == Ok::<u32, String>(n)
            } else {
                r matches Err(msg) && msg@ == "has to be a power of two"@
            },
            Err(k) => r matches Err(msg) && msg@ == spec_int_error_message(k),
        },
{
    match parse_u32(s.as_bytes()) {
        Ok(n) => {
            if u32_is_power_of_two(n) {
                Ok(n)
            } else {
                Err("has to be a power of two".to_owned())
            }
        },
        Err(k) => Err(k.message().to_owned()),
    }
}

/// Logarithm in base 2, rounded down: the `r` with `2^r <= n < 2^(r+1)`.
pub fn log2(n: u32) -> (r: u32)
    requires
        n >= 1,
    ensures
        two_pow(r as nat) <= n < two_pow((r + 1) as nat),
{
    let mut m = n;
    let mut r: u32 = 0;
    proof {
        reveal_with_fuel(two_pow, 33);
        assert(two_pow(31) == 0x80000000nat);
        assert(two_pow(0) == 1);
        assert(two_pow(0) * m == m);
        assert(two_pow(0) * (m + 1) == m + 1);
    }
    while m > 1
        invariant
            m >= 1,
            r <= 31,
            two_pow(r as nat) * m <= n,
            n < two_pow(r as nat) * (m + 1),
            two_pow(31) == 0x80000000nat,
        decreases m,
    {
        let ghost p = two_pow(r as nat);
        proof {
            lemma_two_pow_positive(r as nat);
            assert(p * 2 * (m / 2) <= p * m) by (nonlinear_arith)
                requires
                    p >= 1,
                    m >= 2,
            ;
            assert(p * (m + 1) <= p * 2 * (m / 2 + 1)) by (nonlinear_arith)
                requires
                    p >= 1,
                    m >= 2,
            ;
            if r == 31 {
                assert(p * m >= p * 2) by (nonlinear_arith)
                    requires
                        p >= 1,
                        m >= 2,
                ;
                assert(false);
            }
        }
        m = m / 2;
        r = r + 1;
    }
    assert(m == 1);
    assert(two_pow(r as nat) * m == two_pow(r as nat));
    assert(two_pow(r as nat) * (m + 1) == 2 * two_pow(r as nat));
    assert(two_pow((r + 1) as nat) == 2 * two_pow(r as nat));
    r
}

/// Powers of two are positive.
pub proof fn lemma_two_pow_positive(e: nat)
    ensures
        two_pow(e) >= 1,
    decreases e,
{
    if e > 0 {
        lemma_two_pow_positive((e - 1) as nat);
    }
}

} // verus!
