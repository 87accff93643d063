//! Arithmetic in GF(2^8) with the reduction polynomial x^8 + x^4 + x^3 + x^2 + 1.
use vstd::prelude::*;

verus! {

/// Multiplication by x, reduced modulo the field polynomial.
pub open spec fn xtime_spec(a: u8) -> u8 {
    if a < 128 {
        (a * 2) as u8
    } else {
        (((a - 128) * 2) as u8) ^ 0x1du8
    }
}

/// Field product, by shift-and-add over the bits of `b`.
pub open spec fn gf_mul_spec(a: u8, b: u8) -> u8
    decreases b,
{
    if b == 0 {
        0
    } else {
        let rest = gf_mul_spec(xtime_spec(a), b / 2);
        if b % 2 == 1 {
            rest ^ a
        } else {
            rest
        }
    }
}

/// The field element x^i.
pub open spec fn gf_exp_spec(i: nat) -> u8
    decreases i,
{
    if i == 0 {
        1
    } else {
        xtime_spec(gf_exp_spec((i - 1) as nat))
    }
}

/// The field power a^e.
pub open spec fn gf_pow_spec(a: u8, e: nat) -> u8
    decreases e,
{
    if e == 0 {
        1
    } else {
        gf_mul_spec(gf_pow_spec(a, (e - 1) as nat), a)
    }
}

/// Multiplying by zero gives zero; by one gives the element itself.
pub proof fn lemma_mul_by_unit(a: u8)
    ensures
        gf_mul_spec(a, 0) == 0,
        gf_mul_spec(a, 1) == a,
{
    assert(gf_mul_spec(xtime_spec(a), 0) == 0);
    lemma_xor_zero(a);
}

proof fn lemma_xor_swap(a: u8, b: u8, c: u8)
    ensures
        a ^ (b ^ c) == (a ^ c) ^ b,
{
    assert(a ^ (b ^ c) == (a ^ c) ^ b) by (bit_vector);
}

pub proof fn lemma_xor_zero(a: u8)
    ensures
        0u8 ^ a == a,
        a ^ 0u8 == a,
{
    assert(0u8 ^ a == a) by (bit_vector);
    assert(a ^ 0u8 == a) by (bit_vector);
}

/// Regrouping two sums.
pub proof fn lemma_xor_pair(a: u8, x: u8, b: u8, y: u8)
    ensures
        (a ^ x) ^ (b ^ y) == (a ^ b) ^ (x ^ y),
        x ^ x == 0u8,
        (x ^ y) == 0u8 ==> x == y,
{
    assert((a ^ x) ^ (b ^ y) == (a ^ b) ^ (x ^ y)) by (bit_vector);
    assert(x ^ x == 0u8) by (bit_vector);
    assert((x ^ y) == 0u8 ==> x == y) by (bit_vector);
    lemma_xor_zero(x);
}

pub fn xtime(a: u8) -> (r: u8)
    ensures
        r == xtime_spec(a),
{
    if a < 128 {
        a * 2
    } else {
        ((a - 128) * 2) ^ 0x1d
    }
}

/// Field product of two bytes.
pub fn gf_mul(a: u8, b: u8) -> (r: u8)
    ensures
        r == gf_mul_spec(a, b),
{
    let mut acc: u8 = 0;
    proof {
        lemma_xor_zero(gf_mul_spec(a, b));
    }
    let mut x: u8 = a;
    let mut y: u8 = b;
    while y > 0
        invariant
            gf_mul_spec(a, b) == acc ^ gf_mul_spec(x, y),
        decreases y,
    {
        proof {
            let rest = gf_mul_spec(xtime_spec(x), (y / 2) as u8);
            assert(gf_mul_spec(x, y) == if y % 2 == 1 { rest ^ x } else { rest });
            if y % 2 == 1 {
                lemma_xor_swap(acc, rest, x);
            }
        }
        if y % 2 == 1 {
            acc = acc ^ x;
        }
        x = xtime(x);
        y = y / 2;
    }
    proof {
        lemma_xor_zero(acc);
    }
    acc
}

/// The field element x^i.
pub fn gf_exp(i: usize) -> (r: u8)
    ensures
        r == gf_exp_spec(i as nat),
{
    let mut v: u8 = 1;
    let mut j: usize = 0;
    while j < i
        invariant
            j <= i,
            v == gf_exp_spec(j as nat),
        decreases i - j,
    {
        v = xtime(v);
        j = j + 1;
    }
    v
}

/// The field power a^e.
pub fn gf_pow(a: u8, e: usize) -> (r: u8)
    ensures
        r == gf_pow_spec(a, e as nat),
{
    let mut v: u8 = 1;
    let mut j: usize = 0;
    while j < e
        invariant
            j <= e,
            v == gf_pow_spec(a, j as nat),
        decreases e - j,
    {
        v = gf_mul(v, a);
        j = j + 1;
    }
    v
}

/// Zero times anything is zero.
pub proof fn lemma_zero_mul(b: u8)
    ensures
        gf_mul_spec(0, b) == 0,
    decreases b,
{
    if b != 0 {
        assert(xtime_spec(0) == 0);
        lemma_zero_mul((b / 2) as u8);
        lemma_xor_zero(0);
    }
}

/// The least multiplicative inverse of `a`, found by search over all bytes; none when
/// no byte is an inverse, as for zero.
pub fn gf_inv(a: u8) -> (r: Option<u8>)
    ensures
        a == 0 ==> r is None,
        r matches Some(v) ==> gf_mul_spec(a, v) == 1 && forall|u: u8| u < v ==> #[trigger] gf_mul_spec(a, u) != 1,
        r is None ==> forall|u: u8| #[trigger] gf_mul_spec(a, u) != 1,
{
    proof {
        lemma_mul_by_unit(a);
        if a == 0 {
            assert forall|u: u8| #[trigger] gf_mul_spec(a, u) != 1 by {
                lemma_zero_mul(u);
            }
        }
    }
    let mut v: u8 = 1;
    loop
        invariant
            1 <= v,
            forall|u: u8| u < v ==> #[trigger] gf_mul_spec(a, u) != 1,
            a == 0 ==> forall|u: u8| #[trigger] gf_mul_spec(a, u) != 1,
        decreases 256 - v,
    {
        if gf_mul(a, v) == 1 {
            return Some(v);
        }
        if v == 255 {
            assert forall|u: u8| #[trigger] gf_mul_spec(a, u) != 1 by {
                if u < v {
                } else {
                    assert(u == v);
                }
            }
            return None;
        }
        v = v + 1;
    }
}

} // verus!
