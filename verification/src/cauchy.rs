//! Matrices whose entries are the inverses of sums.

use crate::gf::{
    gf_inverse, gf_product, lemma_inverse, lemma_no_zero_divisors, lemma_product_add_left,
    lemma_product_add_right, lemma_product_associates, lemma_product_commutes,
    lemma_product_units, lemma_xor,
};
use crate::matrix::lemma_xor_pairs;
use vstd::prelude::*;

verus! {

/// The sum of the first `n` entries of `x`, entry `j` over `a + b[j]`.
pub open spec fn cauchy_sum(a: u8, b: Seq<u8>, x: Seq<u8>, n: nat) -> u8
    decreases n,
{
    if n == 0 {
        0
    } else {
        cauchy_sum(a, b, x, (n - 1) as nat) ^ gf_product(gf_inverse(a ^ b[n - 1]), x[n - 1])
    }
}

/// No two entries of the first `n` are the same.
pub open spec fn distinct(s: Seq<u8>, n: nat) -> bool {
    forall|i: int, j: int| 0 <= i < j < n ==> s[i] != s[j]
}

/// (a + d)(c + b) + (c + d)(a + b) = (a + c)(b + d).
proof fn lemma_cross(a: u8, b: u8, c: u8, d: u8)
    ensures
        gf_product(a ^ d, c ^ b) ^ gf_product(c ^ d, a ^ b) == gf_product(a ^ c, b ^ d),
{
    lemma_product_add_left(a, d, c ^ b);
    lemma_product_add_right(a, c, b);
    lemma_product_add_right(d, c, b);
    lemma_product_add_left(c, d, a ^ b);
    lemma_product_add_right(c, a, b);
    lemma_product_add_right(d, a, b);
    lemma_product_add_left(a, c, b ^ d);
    lemma_product_add_right(a, b, d);
    lemma_product_add_right(c, b, d);
    lemma_product_commutes(a, c);
    lemma_product_commutes(d, c);
    lemma_product_commutes(d, a);
    let ac = gf_product(a, c);
    let ab = gf_product(a, b);
    let cd = gf_product(c, d);
    let db = gf_product(d, b);
    let cb = gf_product(c, b);
    let ad = gf_product(a, d);
    assert(((ac ^ ab) ^ (cd ^ db)) ^ ((ac ^ cb) ^ (ad ^ db)) == (ab ^ ad) ^ (cb ^ cd))
        by (bit_vector);
}

/// One term of the elimination of the last column.
proof fn lemma_term(ai: u8, al: u8, bj: u8, bl: u8, xj: u8)
    requires
        ai != bj,
        al != bj,
    ensures
        gf_product(ai ^ bl, gf_product(gf_inverse(ai ^ bj), xj)) ^ gf_product(
            al ^ bl,
            gf_product(gf_inverse(al ^ bj), xj),
        ) == gf_product(
            ai ^ al,
            gf_product(
                gf_inverse(ai ^ bj),
                gf_product(xj, gf_product(bj ^ bl, gf_inverse(al ^ bj))),
            ),
        ),
{
    let u = ai ^ bj;
    let w = al ^ bj;
    lemma_xor(ai, bj, 0);
    lemma_xor(al, bj, 0);
    let iu = gf_inverse(u);
    let iw = gf_inverse(w);
    let p = ai ^ bl;
    let r = al ^ bl;
    let aa = ai ^ al;
    let bb = bj ^ bl;
    let both = gf_product(iw, iu);
    lemma_inverse(u);
    lemma_inverse(w);
    assert(gf_product(gf_product(p, w), both) == gf_product(p, iu)) by {
        lemma_product_associates(p, w, both);
        lemma_product_associates(w, iw, iu);
        lemma_product_units(iu);
    }
    assert(gf_product(gf_product(r, u), both) == gf_product(r, iw)) by {
        lemma_product_commutes(iw, iu);
        lemma_product_associates(r, u, both);
        lemma_product_associates(u, iu, iw);
        lemma_product_units(iw);
    }
    assert(gf_product(p, w) ^ gf_product(r, u) == gf_product(aa, bb)) by {
        lemma_cross(ai, bj, al, bl);
    }
    assert(gf_product(p, iu) ^ gf_product(r, iw) == gf_product(gf_product(aa, bb), both)) by {
        lemma_product_add_left(gf_product(p, w), gf_product(r, u), both);
    }
    assert(gf_product(p, gf_product(iu, xj)) ^ gf_product(r, gf_product(iw, xj)) == gf_product(
        gf_product(gf_product(aa, bb), both),
        xj,
    )) by {
        lemma_product_associates(p, iu, xj);
        lemma_product_associates(r, iw, xj);
        lemma_product_add_left(gf_product(p, iu), gf_product(r, iw), xj);
    }
    let z = gf_product(bb, iw);
    assert(gf_product(gf_product(gf_product(aa, bb), both), xj) == gf_product(
        aa,
        gf_product(bb, gf_product(both, xj)),
    )) by {
        lemma_product_associates(gf_product(aa, bb), both, xj);
        lemma_product_associates(aa, bb, gf_product(both, xj));
    }
    assert(gf_product(bb, gf_product(both, xj)) == gf_product(iu, gf_product(xj, z))) by {
        lemma_product_associates(bb, both, xj);
        lemma_product_associates(bb, iw, iu);
        lemma_product_commutes(z, iu);
        lemma_product_associates(iu, z, xj);
        lemma_product_commutes(z, xj);
    }
}

/// The entries that are left when the last row and column are eliminated.
spec fn reduced(b: Seq<u8>, x: Seq<u8>, al: u8, l: nat) -> Seq<u8> {
    Seq::new(l, |j: int| gf_product(x[j], gf_product(b[j] ^ b[l as int], gf_inverse(al ^ b[j]))))
}

/// Eliminating the last row and column, over the first `m` columns.
proof fn lemma_eliminate(ai: u8, al: u8, b: Seq<u8>, x: Seq<u8>, l: nat, m: nat)
    requires
        m <= l,
        l < b.len(),
        l < x.len(),
        forall|j: int| 0 <= j < l ==> ai != b[j] && al != b[j],
    ensures
        gf_product(ai ^ b[l as int], cauchy_sum(ai, b, x, m)) ^ gf_product(
            al ^ b[l as int],
            cauchy_sum(al, b, x, m),
        ) == gf_product(ai ^ al, cauchy_sum(ai, b, reduced(b, x, al, l), m)),
    decreases m,
{
    let bl = b[l as int];
    let x2 = reduced(b, x, al, l);
    let p = ai ^ bl;
    let r = al ^ bl;
    if m == 0 {
        lemma_product_units(p);
        lemma_product_units(r);
        lemma_product_units(ai ^ al);
        lemma_xor(0, 0, 0);
    } else {
        let n = (m - 1) as nat;
        lemma_eliminate(ai, al, b, x, l, n);
        let bj = b[n as int];
        let xj = x[n as int];
        lemma_term(ai, al, bj, bl, xj);
        let s1 = cauchy_sum(ai, b, x, n);
        let s2 = cauchy_sum(al, b, x, n);
        let t1 = gf_product(gf_inverse(ai ^ bj), xj);
        let t2 = gf_product(gf_inverse(al ^ bj), xj);
        lemma_product_add_right(p, s1, t1);
        lemma_product_add_right(r, s2, t2);
        lemma_xor_pairs(gf_product(p, s1), gf_product(p, t1), gf_product(r, s2), gf_product(r, t2));
        let s3 = cauchy_sum(ai, b, x2, n);
        let t3 = gf_product(gf_inverse(ai ^ bj), x2[n as int]);
        lemma_product_add_right(ai ^ al, s3, t3);
    }
}

/// A vector of zeros has the sum zero.
proof fn lemma_cauchy_zero(a: u8, b: Seq<u8>, x: Seq<u8>, n: nat)
    requires
        forall|j: int| 0 <= j < n ==> x[j] == 0,
    ensures
        cauchy_sum(a, b, x, n) == 0,
    decreases n,
{
    if n > 0 {
        lemma_cauchy_zero(a, b, x, (n - 1) as nat);
        lemma_product_units(gf_inverse(a ^ b[n - 1]));
        lemma_xor(0, 0, 0);
    }
}

/// Only the vector of zeros has the sum zero in every row.
pub proof fn lemma_cauchy(a: Seq<u8>, b: Seq<u8>, x: Seq<u8>, n: nat)
    requires
        n <= a.len(),
        n <= b.len(),
        n <= x.len(),
        distinct(a, n),
        distinct(b, n),
        forall|i: int, j: int| 0 <= i < n && 0 <= j < n ==> a[i] != b[j],
        forall|i: int| 0 <= i < n ==> cauchy_sum(#[trigger] a[i], b, x, n) == 0,
    ensures
        forall|j: int| 0 <= j < n ==> x[j] == 0,
    decreases n,
{
    if n > 0 {
        let l = (n - 1) as nat;
        let al = a[l as int];
        let bl = b[l as int];
        let x2 = reduced(b, x, al, l);
        assert(cauchy_sum(al, b, x, n) == 0);
        assert forall|i: int| 0 <= i < l implies cauchy_sum(#[trigger] a[i], b, x2, l) == 0 by {
            let ai = a[i];
            assert(cauchy_sum(ai, b, x, n) == 0);
            lemma_eliminate(ai, al, b, x, l, l);
            let xl = x[l as int];
            let s1 = cauchy_sum(ai, b, x, l);
            let s2 = cauchy_sum(al, b, x, l);
            let i1 = gf_inverse(ai ^ bl);
            let i2 = gf_inverse(al ^ bl);
            lemma_xor(ai, bl, 0);
            lemma_xor(al, bl, 0);
            lemma_xor(s1, gf_product(i1, xl), 0);
            lemma_xor(s2, gf_product(i2, xl), 0);
            assert(s1 == gf_product(i1, xl));
            assert(s2 == gf_product(i2, xl));
            assert(gf_product(ai ^ bl, s1) == xl) by {
                lemma_inverse(ai ^ bl);
                lemma_product_associates(ai ^ bl, i1, xl);
                lemma_product_units(xl);
            }
            assert(gf_product(al ^ bl, s2) == xl) by {
                lemma_inverse(al ^ bl);
                lemma_product_associates(al ^ bl, i2, xl);
                lemma_product_units(xl);
            }
            lemma_xor(xl, xl, 0);
            lemma_xor(ai, al, 0);
            lemma_no_zero_divisors(ai ^ al, cauchy_sum(ai, b, x2, l));
        }
        lemma_cauchy(a, b, x2, l);
        assert forall|j: int| 0 <= j < l implies x[j] == 0 by {
            let g = gf_product(b[j] ^ bl, gf_inverse(al ^ b[j]));
            assert(x2[j] == gf_product(x[j], g));
            lemma_no_zero_divisors(x[j], g);
            if g == 0 {
                lemma_no_zero_divisors(b[j] ^ bl, gf_inverse(al ^ b[j]));
                lemma_xor(b[j], bl, 0);
                lemma_xor(al, b[j], 0);
                lemma_inverse(al ^ b[j]);
            }
        }
        lemma_cauchy_zero(al, b, x, l);
        let xl = x[l as int];
        let i2 = gf_inverse(al ^ bl);
        lemma_xor(0, gf_product(i2, xl), 0);
        lemma_xor(gf_product(i2, xl), 0, 0);
        lemma_no_zero_divisors(i2, xl);
        lemma_xor(al, bl, 0);
        lemma_inverse(al ^ bl);
        assert forall|j: int| 0 <= j < n implies x[j] == 0 by {}
    }
}

} // verus!
