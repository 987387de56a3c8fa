//! The field of 256 elements, polynomials over two elements modulo
//! x^8 + x^4 + x^3 + x^2 + 1.
//!
//! An element is a byte, bit `i` of it the coefficient of x^i. Addition is
//! exclusive or.

use vstd::prelude::*;

verus! {

/// The product of `a` and the polynomial x; x^8 is x^4 + x^3 + x^2 + 1.
pub open spec fn gf_double(a: u8) -> u8 {
    (a << 1) ^ (if (a >> 7) == 1 {
        0x1du8
    } else {
        0u8
    })
}

/// `a` where bit `i` of `b` is set, else zero.
pub open spec fn gf_select(a: u8, b: u8, i: u8) -> u8 {
    if (b >> i) & 1 == 1 {
        a
    } else {
        0u8
    }
}

/// The product of two elements: the sum of the shifted copies of `a` that the
/// bits of `b` select.
#[verifier::opaque]
pub open spec fn gf_product(a: u8, b: u8) -> u8 {
    let a1 = gf_double(a);
    let a2 = gf_double(a1);
    let a3 = gf_double(a2);
    let a4 = gf_double(a3);
    let a5 = gf_double(a4);
    let a6 = gf_double(a5);
    let a7 = gf_double(a6);
    gf_select(a, b, 0) ^ gf_select(a1, b, 1) ^ gf_select(a2, b, 2) ^ gf_select(a3, b, 3)
        ^ gf_select(a4, b, 4) ^ gf_select(a5, b, 5) ^ gf_select(a6, b, 6) ^ gf_select(a7, b, 7)
}

/// Multiplication distributes over addition on the right.
pub proof fn lemma_product_add_right(a: u8, b: u8, c: u8)
    ensures
        gf_product(a, b ^ c) == gf_product(a, b) ^ gf_product(a, c),
{
    assert(gf_product(a, b ^ c) == gf_product(a, b) ^ gf_product(a, c)) by (bit_vector);
}

/// Multiplication is commutative.
pub proof fn lemma_product_commutes(a: u8, b: u8)
    ensures
        gf_product(a, b) == gf_product(b, a),
{
    assert(gf_product(a, b) == gf_product(b, a)) by (bit_vector);
}

/// Doubling one factor doubles the product.
proof fn lemma_product_double(a: u8, b: u8)
    ensures
        gf_product(a, gf_double(b)) == gf_double(gf_product(a, b)),
{
    assert(gf_product(a, gf_double(b)) == gf_double(gf_product(a, b))) by (bit_vector);
}

/// Exclusive or is an addition in which every element is its own negative.
pub proof fn lemma_xor(a: u8, b: u8, c: u8)
    ensures
        a ^ b == b ^ a,
        (a ^ b) ^ c == a ^ (b ^ c),
        a ^ a == 0,
        a ^ 0 == a,
        0 ^ a == a,
        (a ^ b) ^ b == a,
        a ^ b == c <==> a == c ^ b,
        a ^ b == 0 <==> a == b,
{
    assert(a ^ b == b ^ a && (a ^ b) ^ c == a ^ (b ^ c) && a ^ a == 0 && a ^ 0 == a && 0 ^ a == a
        && (a ^ b) ^ b == a && (a ^ b == c <==> a == c ^ b) && (a ^ b == 0 <==> a == b))
        by (bit_vector);
}

/// Zero and one.
pub proof fn lemma_product_units(a: u8)
    ensures
        gf_product(a, 0) == 0,
        gf_product(0, a) == 0,
        gf_product(a, 1) == a,
        gf_product(1, a) == a,
{
    assert(gf_product(a, 0) == 0 && gf_product(a, 1) == a) by (bit_vector);
    lemma_product_commutes(a, 0);
    lemma_product_commutes(a, 1);
}

/// Multiplication distributes over addition on the left.
pub proof fn lemma_product_add_left(a: u8, b: u8, c: u8)
    ensures
        gf_product(a ^ b, c) == gf_product(a, c) ^ gf_product(b, c),
{
    lemma_product_commutes(a ^ b, c);
    lemma_product_commutes(a, c);
    lemma_product_commutes(b, c);
    lemma_product_add_right(c, a, b);
}

/// Multiplication is associative.
pub proof fn lemma_product_associates(a: u8, b: u8, c: u8)
    ensures
        gf_product(gf_product(a, b), c) == gf_product(a, gf_product(b, c)),
{
    let b1 = gf_double(b);
    let b2 = gf_double(b1);
    let b3 = gf_double(b2);
    let b4 = gf_double(b3);
    let b5 = gf_double(b4);
    let b6 = gf_double(b5);
    let b7 = gf_double(b6);
    let s0 = gf_select(b, c, 0);
    let s1 = gf_select(b1, c, 1);
    let s2 = gf_select(b2, c, 2);
    let s3 = gf_select(b3, c, 3);
    let s4 = gf_select(b4, c, 4);
    let s5 = gf_select(b5, c, 5);
    let s6 = gf_select(b6, c, 6);
    let s7 = gf_select(b7, c, 7);
    lemma_product_add_right(a, s0 ^ s1 ^ s2 ^ s3 ^ s4 ^ s5 ^ s6, s7);
    lemma_product_add_right(a, s0 ^ s1 ^ s2 ^ s3 ^ s4 ^ s5, s6);
    lemma_product_add_right(a, s0 ^ s1 ^ s2 ^ s3 ^ s4, s5);
    lemma_product_add_right(a, s0 ^ s1 ^ s2 ^ s3, s4);
    lemma_product_add_right(a, s0 ^ s1 ^ s2, s3);
    lemma_product_add_right(a, s0 ^ s1, s2);
    lemma_product_add_right(a, s0, s1);
    lemma_product_double(a, b);
    lemma_product_double(a, b1);
    lemma_product_double(a, b2);
    lemma_product_double(a, b3);
    lemma_product_double(a, b4);
    lemma_product_double(a, b5);
    lemma_product_double(a, b6);
    lemma_product_units(a);
    reveal(gf_product);
    let p = gf_product(a, b);
    let p1 = gf_double(p);
    let p2 = gf_double(p1);
    let p3 = gf_double(p2);
    let p4 = gf_double(p3);
    let p5 = gf_double(p4);
    let p6 = gf_double(p5);
    let p7 = gf_double(p6);
    assert(gf_product(a, s0) == gf_select(p, c, 0));
    assert(gf_product(a, s1) == gf_select(p1, c, 1));
    assert(gf_product(a, s2) == gf_select(p2, c, 2));
    assert(gf_product(a, s3) == gf_select(p3, c, 3));
    assert(gf_product(a, s4) == gf_select(p4, c, 4));
    assert(gf_product(a, s5) == gf_select(p5, c, 5));
    assert(gf_product(a, s6) == gf_select(p6, c, 6));
    assert(gf_product(a, s7) == gf_select(p7, c, 7));
}

/// The power x^n.
pub open spec fn gf_exp(n: nat) -> u8
    decreases n,
{
    if n == 0 {
        1
    } else {
        gf_double(gf_exp((n - 1) as nat))
    }
}

/// Exponents add.
pub proof fn lemma_exp_add(m: nat, n: nat)
    ensures
        gf_product(gf_exp(m), gf_exp(n)) == gf_exp(m + n),
    decreases n,
{
    if n == 0 {
        lemma_product_units(gf_exp(m));
    } else {
        lemma_exp_add(m, (n - 1) as nat);
        lemma_product_double(gf_exp(m), gf_exp((n - 1) as nat));
    }
}

/// The powers that settle the order of x.
proof fn lemma_exp_values()
    ensures
        gf_exp(1) == 2,
        gf_exp(15) == 0x26,
        gf_exp(51) == 0x0a,
        gf_exp(85) == 0xd6,
        gf_exp(255) == 1,
{
    assert(gf_double(1) == 2 && gf_product(2, 2) == 4 && gf_product(4, 4) == 0x10 && gf_product(
        0x10,
        0x10,
    ) == 0x1d && gf_product(0x1d, 0x1d) == 0x4c && gf_product(0x4c, 0x4c) == 0x9d && gf_product(
        0x9d,
        0x9d,
    ) == 0x5f && gf_product(2, 4) == 8 && gf_product(8, 0x10) == 0x80 && gf_product(0x80, 0x1d)
        == 0x26 && gf_product(8, 0x4c) == 0x5a && gf_product(0x5a, 0x9d) == 0x0a && gf_product(
        2,
        0x10,
    ) == 0x20 && gf_product(0x20, 0x4c) == 0x75 && gf_product(0x75, 0x5f) == 0xd6 && gf_product(
        0xd6,
        0xd6,
    ) == 0xd7 && gf_product(0xd7, 0xd6) == 1) by (bit_vector);
    assert(gf_exp(0) == 1);
    assert(gf_exp(1) == 2);
    lemma_exp_add(1, 1);
    lemma_exp_add(2, 2);
    lemma_exp_add(4, 4);
    lemma_exp_add(8, 8);
    lemma_exp_add(16, 16);
    lemma_exp_add(32, 32);
    lemma_exp_add(1, 2);
    lemma_exp_add(3, 4);
    lemma_exp_add(7, 8);
    lemma_exp_add(3, 16);
    lemma_exp_add(19, 32);
    lemma_exp_add(1, 4);
    lemma_exp_add(5, 16);
    lemma_exp_add(21, 64);
    lemma_exp_add(85, 85);
    lemma_exp_add(170, 85);
}

/// Every multiple of a period is one.
proof fn lemma_exp_multiple(d: nat, q: nat)
    requires
        gf_exp(d) == 1,
    ensures
        gf_exp(d * q) == 1,
    decreases q,
{
    if q == 0 {
        assert(d * q == 0);
    } else {
        lemma_exp_multiple(d, (q - 1) as nat);
        lemma_exp_add(d * ((q - 1) as nat), d);
        lemma_product_units(1);
        assert(d * ((q - 1) as nat) + d == d * q) by (nonlinear_arith)
            requires
                q > 0,
        ;
    }
}

/// A divisor of 255 below it divides 15, 51 or 85.
proof fn lemma_divisors(d: u32)
    requires
        0 < d < 255,
        255u32 % d == 0,
    ensures
        15u32 % d == 0 || 51u32 % d == 0 || 85u32 % d == 0,
{
    assert(15u32 % d == 0 || 51u32 % d == 0 || 85u32 % d == 0) by (bit_vector)
        requires
            0 < d < 255,
            255u32 % d == 0,
    ;
}

/// No power of x below the 255th is one.
proof fn lemma_order(d: nat)
    requires
        0 < d < 255,
    ensures
        gf_exp(d) != 1,
    decreases d,
{
    if gf_exp(d) == 1 {
        lemma_exp_values();
        let q: nat = 255nat / d;
        let r: nat = 255nat % d;
        assert(255 == d * q + r) by {
            vstd::arithmetic::div_mod::lemma_fundamental_div_mod(255, d as int);
        }
        lemma_exp_multiple(d, q);
        lemma_exp_add(d * q, r);
        lemma_product_units(gf_exp(r));
        if r > 0 {
            lemma_order(r);
        } else {
            lemma_divisors(d as u32);
            if 15nat % d == 0 {
                let t: nat = 15nat / d;
                vstd::arithmetic::div_mod::lemma_fundamental_div_mod(15, d as int);
                lemma_exp_multiple(d, t);
            } else if 51nat % d == 0 {
                let t: nat = 51nat / d;
                vstd::arithmetic::div_mod::lemma_fundamental_div_mod(51, d as int);
                lemma_exp_multiple(d, t);
            } else {
                let t: nat = 85nat / d;
                vstd::arithmetic::div_mod::lemma_fundamental_div_mod(85, d as int);
                lemma_exp_multiple(d, t);
            }
        }
    }
}

/// The powers of x repeat after 255 steps.
pub proof fn lemma_exp_cycle(n: nat)
    ensures
        gf_exp(n + 255) == gf_exp(n),
{
    lemma_exp_values();
    lemma_exp_add(n, 255);
    lemma_product_units(gf_exp(n));
}

/// The first 255 powers of x are distinct.
pub proof fn lemma_exp_distinct(i: nat, j: nat)
    requires
        i < j < 255,
    ensures
        gf_exp(i) != gf_exp(j),
{
    if gf_exp(i) == gf_exp(j) {
        lemma_exp_values();
        let up: nat = (255 - i) as nat;
        lemma_exp_add(i, up);
        lemma_exp_add(j, up);
        lemma_exp_cycle((j - i) as nat);
        lemma_order((j - i) as nat);
    }
}

/// A power of x and the power that completes it to the 255th are inverse.
pub proof fn lemma_exp_inverse(i: nat)
    requires
        i <= 255,
    ensures
        gf_product(gf_exp(i), gf_exp((255 - i) as nat)) == 1,
        gf_exp(i) != 0,
{
    lemma_exp_values();
    lemma_exp_add(i, (255 - i) as nat);
    lemma_product_units(gf_exp((255 - i) as nat));
}

/// Every element but zero is one of the first 255 powers of x.
pub proof fn lemma_exp_onto(a: u8) -> (i: nat)
    requires
        a != 0,
    ensures
        i < 255,
        gf_exp(i) == a,
{
    let powers = Seq::new(255, |i: int| gf_exp(i as nat) as int);
    assert(powers.no_duplicates()) by {
        assert forall|i: int, j: int| 0 <= i < powers.len() && 0 <= j < powers.len() && i != j
            implies powers[i] != powers[j] by {
            if i < j {
                lemma_exp_distinct(i as nat, j as nat);
            } else {
                lemma_exp_distinct(j as nat, i as nat);
            }
        }
    }
    powers.unique_seq_to_set();
    let all = vstd::set_lib::set_int_range(1, 256);
    vstd::set_lib::lemma_int_range(1, 256);
    assert(powers.to_set().subset_of(all)) by {
        assert forall|v: int| powers.to_set().contains(v) implies all.contains(v) by {
            let i = choose|i: int| 0 <= i < powers.len() && powers[i] == v;
            lemma_exp_inverse(i as nat);
        }
    }
    vstd::set_lib::lemma_len_subset(powers.to_set(), all);
    vstd::set_lib::lemma_subset_equality(powers.to_set(), all);
    assert(all.contains(a as int));
    assert(powers.to_set().contains(a as int));
    let i = choose|i: int| 0 <= i < powers.len() && powers[i] == a as int;
    i as nat
}

/// The multiplicative inverse; of zero, which has none, zero.
pub open spec fn gf_inverse(a: u8) -> u8 {
    if a == 0 {
        0
    } else {
        choose|b: u8| gf_product(a, b) == 1
    }
}

/// An element other than zero times its inverse is one.
pub proof fn lemma_inverse(a: u8)
    requires
        a != 0,
    ensures
        gf_product(a, gf_inverse(a)) == 1,
        gf_product(gf_inverse(a), a) == 1,
        gf_inverse(a) != 0,
{
    let i = lemma_exp_onto(a);
    lemma_exp_inverse(i);
    assert(gf_product(a, gf_exp((255 - i) as nat)) == 1);
    lemma_product_commutes(a, gf_inverse(a));
    lemma_product_units(a);
}

/// What an element times `b` makes one is the inverse.
pub proof fn lemma_inverse_unique(a: u8, b: u8)
    requires
        gf_product(a, b) == 1,
    ensures
        b == gf_inverse(a),
{
    lemma_product_units(b);
    let c = gf_inverse(a);
    lemma_inverse(a);
    lemma_product_associates(c, a, b);
    lemma_product_units(b);
    lemma_product_units(c);
}

/// A product is zero only where a factor is.
pub proof fn lemma_no_zero_divisors(a: u8, b: u8)
    requires
        gf_product(a, b) == 0,
    ensures
        a == 0 || b == 0,
{
    if a != 0 {
        lemma_inverse(a);
        lemma_product_associates(gf_inverse(a), a, b);
        lemma_product_units(b);
        lemma_product_units(gf_inverse(a));
    }
}

/// Twice an element is its double as a number while that fits in a byte; where it does
/// not, it is reduced by x^8 + x^4 + x^3 + x^2 + 1. With the distributive law this makes
/// every product.
pub proof fn law_products_are_reduced(a: u8)
    ensures
        gf_product(a, 1) == a,
        a < 128 ==> gf_product(a, 2) == 2 * a,
        a >= 128 ==> gf_product(a, 2) == ((2 * a - 256) as u8) ^ 0x1d,
{
    assert(gf_product(a, 1) == a && (a < 128 ==> gf_product(a, 2) == 2 * a) && (a >= 128
        ==> gf_product(a, 2) == ((2 * a - 256) as u8) ^ 0x1d)) by (bit_vector);
}

} // verus!
