//! Human-readable sizes: bytes below 1 KiB as they are, larger sizes in the
//! largest binary unit up to TiB that keeps the number at least 1, with one
//! decimal. The number is the one that converting the size to an `f64`,
//! dividing by 1024 per unit and formatting with `{:.1}` gives; it is computed
//! here exactly, with integers.

use vstd::prelude::*;
use vstd::arithmetic::power2::{pow2, lemma_pow2_unfold, lemma_pow2_adds, lemma_pow2_pos, lemma_pow2_strictly_increases, lemma2_to64};
use vstd::arithmetic::div_mod::{lemma_fundamental_div_mod_converse, lemma_fundamental_div_mod, lemma_mod_pos_bound};
use crate::text::{decimal, digit_char, push_decimal, digit_char_of, string_of};

verus! {

/// `a / b` rounded to the nearest integer, a tie going to the even one.
pub open spec fn round_half_even(a: nat, b: nat) -> nat {
    let q = a / b;
    let r = a % b;
    if 2 * r > b || (2 * r == b && q % 2 == 1) {
        q + 1
    } else {
        q
    }
}

/// The number of bits it takes to write `n` in binary.
pub open spec fn bit_len(n: nat) -> nat
    decreases n,
{
    if n == 0 {
        0
    } else {
        1 + bit_len(n / 2)
    }
}

/// The value of the `f64` nearest to `n`, ties to even: `n` itself when it has
/// at most 53 significant bits, else `n` rounded to 53 significant bits.
pub open spec fn nearest_double(n: nat) -> nat {
    if bit_len(n) <= 53 {
        n
    } else {
        let e = (bit_len(n) - 53) as nat;
        round_half_even(n, pow2(e)) * pow2(e)
    }
}

/// 1024 to the power `u`.
pub open spec fn pow1024(u: nat) -> nat {
    pow2(10 * u)
}

/// How many times, starting with `u` done, `m` can be divided by 1024 while
/// the quotient stays at least 1024, stopping at TiB (4 times).
pub open spec fn unit_of(m: nat, u: nat) -> nat
    decreases 4 - u,
{
    if u < 4 && m >= pow1024(u + 1) {
        unit_of(m, u + 1)
    } else {
        u
    }
}

/// The name of the unit 1024^`u` bytes.
pub open spec fn unit_name(u: nat) -> Seq<char> {
    if u == 0 {
        seq!['B']
    } else if u == 1 {
        seq!['K', 'i', 'B']
    } else if u == 2 {
        seq!['M', 'i', 'B']
    } else if u == 3 {
        seq!['G', 'i', 'B']
    } else {
        seq!['T', 'i', 'B']
    }
}

/// A size of `n` bytes, written for people: below 1024 bytes the number of
/// bytes and `B`; else, in the unit `u` that the `f64` value of `n` calls for,
/// that value over 1024^`u` rounded to tenths (ties to even, as `{:.1}`
/// rounds), its tenths digit after a `.`, and the unit's name.
pub open spec fn human(n: nat) -> Seq<char> {
    if n < 1024 {
        decimal(n) + seq!['B']
    } else {
        let m = nearest_double(n);
        let u = unit_of(m, 0);
        let t = round_half_even(10 * m, pow1024(u));
        decimal(t / 10) + seq!['.', digit_char(t % 10)] + unit_name(u)
    }
}

/// `2^(L-1) <= n < 2^L` for `L = bit_len(n)`.
pub proof fn lemma_bit_len_bounds(n: nat)
    requires
        n >= 1,
    ensures
        bit_len(n) >= 1,
        pow2((bit_len(n) - 1) as nat) <= n < pow2(bit_len(n)),
    decreases n,
{
    let l = bit_len(n);
    lemma_pow2_unfold(l);
    if n == 1 {
        assert(bit_len(0) == 0);
        assert(pow2(0) == 1) by {
            lemma2_to64();
        }
    } else {
        lemma_bit_len_bounds(n / 2);
        lemma_pow2_unfold((l - 1) as nat);
    }
}

/// Scaling both sides of a division leaves the rounded quotient alone.
pub proof fn lemma_round_scaled(x: nat, y: nat, c: nat)
    requires
        y > 0,
        c > 0,
    ensures
        round_half_even(x * c, y * c) == round_half_even(x, y),
{
    let q = x / y;
    let r = x % y;
    assert(x == y * q + r && 0 <= r < y) by {
        lemma_fundamental_div_mod(x as int, y as int);
        lemma_mod_pos_bound(x as int, y as int);
    }
    assert(x * c == q * (y * c) + r * c) by (nonlinear_arith)
        requires
            x == y * q + r,
    ;
    assert(0 <= r * c < y * c) by (nonlinear_arith)
        requires
            0 <= r < y,
            c > 0,
    ;
    lemma_fundamental_div_mod_converse((x * c) as int, (y * c) as int, q as int, (r * c) as int);
    assert(2 * (r * c) > y * c <==> 2 * r > y) by (nonlinear_arith)
        requires
            c > 0,
    ;
    assert(2 * (r * c) == y * c <==> 2 * r == y) by (nonlinear_arith)
        requires
            c > 0,
    ;
}

/// A multiple of `b` divides by `b` with nothing to round.
pub proof fn lemma_round_exact(c: nat, b: nat)
    requires
        b > 0,
    ensures
        round_half_even(c * b, b) == c,
{
    assert(c * b == c * b + 0);
    lemma_fundamental_div_mod_converse((c * b) as int, b as int, c as int, 0);
}

/// At and beyond 1024^4 bytes the unit is TiB.
pub proof fn lemma_unit_top(m: nat, u: nat)
    requires
        u <= 4,
        m >= pow1024(4),
    ensures
        unit_of(m, u) == 4,
    decreases 4 - u,
{
    if u < 4 {
        if u + 1 < 4 {
            lemma_pow2_strictly_increases(10 * (u + 1), 40);
        }
        lemma_unit_top(m, u + 1);
    }
}

/// `2^e`.
pub fn pow2_u128(e: u32) -> (r: u128)
    requires
        e < 128,
    ensures
        r as nat == pow2(e as nat),
{
    proof {
        lemma2_to64();
        lemma_pow2_adds(64, 64);
        assert(pow2(128) == 0x1_0000_0000_0000_0000_0000_0000_0000_0000);
    }
    let mut r: u128 = 1;
    let mut k: u32 = 0;
    while k < e
        invariant
            k <= e < 128,
            r as nat == pow2(k as nat),
            pow2(128) == 0x1_0000_0000_0000_0000_0000_0000_0000_0000,
        decreases e - k,
    {
        proof {
            lemma_pow2_unfold((k + 1) as nat);
            if k + 1 < 128 {
                lemma_pow2_strictly_increases((k + 1) as nat, 128);
            }
        }
        r = r * 2;
        k = k + 1;
    }
    r
}

/// The number of bits it takes to write `n` in binary.
fn bit_len_of(n: u128) -> (l: u32)
    ensures
        l as nat == bit_len(n as nat),
        l <= 128,
{
    proof {
        if n > 0 {
            lemma_bit_len_bounds(n as nat);
            lemma2_to64();
            lemma_pow2_adds(64, 64);
            if bit_len(n as nat) > 128 {
                lemma_pow2_strictly_increases(128, (bit_len(n as nat) - 1) as nat);
            }
        }
    }
    let mut x = n;
    let mut l: u32 = 0;
    while x > 0
        invariant
            bit_len(n as nat) == l + bit_len(x as nat),
            l + bit_len(x as nat) <= 128,
        decreases x,
    {
        x = x / 2;
        l = l + 1;
    }
    l
}

} // verus!

verus! {

/// `a / b` rounded to the nearest integer, a tie going to the even one.
fn round_half_even_of(a: u128, b: u128) -> (r: u128)
    requires
        b > 0,
    ensures
        r as nat == round_half_even(a as nat, b as nat),
{
    let q = a / b;
    let r = a % b;
    if (r >= b - r && r != b - r) || (r == b - r && q % 2 == 1) {
        proof {
            assert(q * b <= a) by (nonlinear_arith)
                requires
                    q == a / b,
                    b > 0,
            ;
            assert(b >= 2);
            assert(q * 2 <= a) by (nonlinear_arith)
                requires
                    q * b <= a,
                    b >= 2,
            ;
        }
        q + 1
    } else {
        q
    }
}

/// Appends the name of the unit 1024^`u` bytes.
fn push_unit_name(out: &mut Vec<char>, u: u32)
    ensures
        final(out)@ == old(out)@ + unit_name(u as nat),
{
    if u == 0 {
        out.push('B');
    } else {
        if u == 1 {
            out.push('K');
        } else if u == 2 {
            out.push('M');
        } else if u == 3 {
            out.push('G');
        } else {
            out.push('T');
        }
        out.push('i');
        out.push('B');
    }
    assert(out@ =~= old(out)@ + unit_name(u as nat));
}

/// The unit, at most TiB, that a size of `m < 2^53` bytes is shown in.
fn unit_for(m: u128) -> (u: u32)
    ensures
        u as nat == unit_of(m as nat, 0),
        u <= 4,
{
    let mut u: u32 = 0;
    let mut next: u128 = 1024;
    proof {
        lemma2_to64();
    }
    while u < 4 && m >= next
        invariant
            u <= 4,
            unit_of(m as nat, 0) == unit_of(m as nat, u as nat),
            u < 4 ==> next as nat == pow1024((u + 1) as nat),
        decreases 4 - u,
    {
        proof {
            lemma_pow2_adds(10 * (u + 1) as nat, 10);
            lemma2_to64();
            if u + 1 < 4 {
                lemma_pow2_strictly_increases(10 * (u + 2) as nat, 64);
            }
        }
        u = u + 1;
        if u < 4 {
            next = next * 1024;
        }
    }
    u
}

/// Appends `n` bytes written for people.
pub fn push_human(out: &mut Vec<char>, n: u128)
    ensures
        final(out)@ == old(out)@ + human(n as nat),
{
    if n < 1024 {
        push_decimal(out, n);
        out.push('B');
        assert(out@ =~= old(out)@ + human(n as nat));
        return;
    }
    let l = bit_len_of(n);
    proof {
        lemma_bit_len_bounds(n as nat);
        lemma2_to64();
    }
    let ghost m = nearest_double(n as nat);
    // m == q * 2^e, with q < 2^53 + 1
    let mut q: u128 = n;
    let mut e: u32 = 0;
    if l > 53 {
        e = l - 53;
        let b = pow2_u128(e);
        proof {
            lemma_pow2_adds(53, e as nat);
            lemma_pow2_pos(e as nat);
            assert(n as nat / b as nat <= pow2(53)) by (nonlinear_arith)
                requires
                    n < pow2(53) * pow2(e as nat),
                    b == pow2(e as nat),
                    b > 0,
            ;
        }
        q = round_half_even_of(n, b);
    }
    assert(m == q * pow2(e as nat)) by {
        if l <= 53 {
            lemma2_to64();
        }
    }
    assert(q <= pow2(53) && e <= 75) by {
        lemma2_to64();
        if l > 53 {
            let bb = pow2(e as nat);
            lemma_pow2_adds(53, e as nat);
            lemma_pow2_pos(e as nat);
            assert(n < pow2(53) * bb);
            let fl = n as nat / bb;
            assert(fl < pow2(53)) by (nonlinear_arith)
                requires
                    n < pow2(53) * bb,
                    bb > 0,
                    fl == n as nat / bb,
            ;
            assert(q as nat == round_half_even(n as nat, bb));
            assert(round_half_even(n as nat, bb) <= fl + 1);
        } else if l < 53 {
            lemma_pow2_strictly_increases(l as nat, 53);
        }
    }
    assert(pow2(53) == 0x20_0000_0000_0000) by {
        lemma2_to64();
        lemma_pow2_adds(32, 21);
    }
    let u: u32 = if l > 53 {
        proof {
            lemma_pow2_adds(52, e as nat);
            lemma_pow2_pos(e as nat);
            lemma2_to64();
            assert(n as nat / pow2(e as nat) >= pow2(52)) by (nonlinear_arith)
                requires
                    pow2(52) * pow2(e as nat) <= n,
                    pow2(e as nat) > 0,
            ;
            assert(m >= pow2(52) * pow2(e as nat)) by (nonlinear_arith)
                requires
                    m == q * pow2(e as nat),
                    q >= n as nat / pow2(e as nat),
                    n as nat / pow2(e as nat) >= pow2(52),
                    pow2(e as nat) > 0,
            ;
            lemma_pow2_strictly_increases(40, 52 + e as nat);
            lemma_unit_top(m, 0);
        }
        4
    } else {
        unit_for(n)
    };
    let ghost b = pow1024(u as nat);
    let t: u128 = if e >= 10 * u {
        let f = pow2_u128(e - 10 * u);
        proof {
            lemma_pow2_adds((e - 10 * u) as nat, 10 * u as nat);
            lemma_pow2_pos(10 * u as nat);
            assert(f <= pow2(35)) by {
                if e - 10 * u < 35 {
                    lemma_pow2_strictly_increases((e - 10 * u) as nat, 35);
                }
            }
            lemma_pow2_adds(53, 35);
            assert(pow2(35) == 0x8_0000_0000) by {
                lemma2_to64();
                lemma_pow2_adds(32, 3);
            }
            assert(10 * q * f <= 10 * pow2(88)) by (nonlinear_arith)
                requires
                    q <= pow2(53),
                    f <= pow2(35),
                    pow2(88) == pow2(53) * pow2(35),
            ;
            lemma_pow2_adds(64, 24);
            assert(pow2(24) == 0x100_0000) by {
                lemma2_to64();
            }
            assert(pow2(88) == 0x100_0000_0000_0000_0000_0000);
            assert(10 * m == (10 * q * f) * b) by (nonlinear_arith)
                requires
                    m == q * pow2(e as nat),
                    pow2(e as nat) == f * b,
            ;
            lemma_round_exact((10 * q * f) as nat, b);
        }
        10 * q * f
    } else {
        let d = pow2_u128(10 * u - e);
        proof {
            lemma_pow2_adds((10 * u - e) as nat, e as nat);
            lemma_pow2_pos(e as nat);
            lemma_pow2_pos((10 * u - e) as nat);
            assert(10 * m == (10 * q) * pow2(e as nat)) by (nonlinear_arith)
                requires
                    m == q * pow2(e as nat),
            ;
            lemma_round_scaled(10 * q as nat, d as nat, pow2(e as nat));
            lemma_pow2_strictly_increases(40, 64);
            if 10 * u - e < 40 {
                lemma_pow2_strictly_increases((10 * u - e) as nat, 40);
            }
        }
        round_half_even_of(10 * q, d)
    };
    assert(t == round_half_even(10 * m, b));
    push_decimal(out, t / 10);
    out.push('.');
    let c = digit_char_of(t % 10);
    out.push(c);
    push_unit_name(out, u);
    assert(out@ =~= old(out)@ + human(n as nat));
}

/// A size of `bytes` bytes written for people, such as `512B` or `2.0KiB`.
pub fn human_size(bytes: u64) -> (s: String)
    ensures
        s@ == human(bytes as nat),
{
    let mut v: Vec<char> = Vec::new();
    push_human(&mut v, bytes as u128);
    string_of(&v)
}

} // verus!
