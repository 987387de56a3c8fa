//! Square matrices over the field of 256 elements, as sequences of rows, and
//! their inversion.

use crate::fec::FecTables;
use crate::gf::{
    gf_inverse, gf_product, lemma_inverse, lemma_no_zero_divisors, lemma_product_add_left,
    lemma_product_add_right, lemma_product_associates, lemma_product_commutes,
    lemma_product_units, lemma_xor,
};
use vstd::prelude::*;

verus! {

/// The sum of the products of the first `n` entries of two vectors.
pub open spec fn dot(a: Seq<u8>, b: Seq<u8>, n: nat) -> u8
    decreases n,
{
    if n == 0 {
        0
    } else {
        dot(a, b, (n - 1) as nat) ^ gf_product(a[n - 1], b[n - 1])
    }
}

/// The order of the vectors does not matter.
pub proof fn lemma_dot_commutes(a: Seq<u8>, b: Seq<u8>, n: nat)
    ensures
        dot(a, b, n) == dot(b, a, n),
    decreases n,
{
    if n > 0 {
        lemma_dot_commutes(a, b, (n - 1) as nat);
        lemma_product_commutes(a[n - 1], b[n - 1]);
    }
}

/// A factor of the first vector is a factor of the product.
pub proof fn lemma_dot_scale(s: u8, a: Seq<u8>, sa: Seq<u8>, b: Seq<u8>, n: nat)
    requires
        forall|i: int| 0 <= i < n ==> sa[i] == gf_product(s, #[trigger] a[i]),
    ensures
        dot(sa, b, n) == gf_product(s, dot(a, b, n)),
    decreases n,
{
    if n == 0 {
        lemma_product_units(s);
    } else {
        lemma_dot_scale(s, a, sa, b, (n - 1) as nat);
        lemma_product_associates(s, a[n - 1], b[n - 1]);
        lemma_product_add_right(
            s,
            dot(a, b, (n - 1) as nat),
            gf_product(a[n - 1], b[n - 1]),
        );
    }
}

/// Four terms may be summed in pairs either way.
pub proof fn lemma_xor_pairs(a: u8, b: u8, c: u8, d: u8)
    ensures
        (a ^ b) ^ (c ^ d) == (a ^ c) ^ (b ^ d),
{
    assert((a ^ b) ^ (c ^ d) == (a ^ c) ^ (b ^ d)) by (bit_vector);
}

/// The product with a sum is the sum of the products.
pub proof fn lemma_dot_add(a: Seq<u8>, b: Seq<u8>, ab: Seq<u8>, c: Seq<u8>, n: nat)
    requires
        forall|i: int| 0 <= i < n ==> ab[i] == #[trigger] a[i] ^ b[i],
    ensures
        dot(ab, c, n) == dot(a, c, n) ^ dot(b, c, n),
    decreases n,
{
    if n == 0 {
        lemma_xor(0, 0, 0);
    } else {
        lemma_dot_add(a, b, ab, c, (n - 1) as nat);
        assert(ab[n - 1] == a[n - 1] ^ b[n - 1]);
        lemma_product_add_left(a[n - 1], b[n - 1], c[n - 1]);
        lemma_xor_pairs(
            dot(a, c, (n - 1) as nat),
            dot(b, c, (n - 1) as nat),
            gf_product(a[n - 1], c[n - 1]),
            gf_product(b[n - 1], c[n - 1]),
        );
    }
}

/// What one changed entry of the second vector adds to the product.
pub proof fn lemma_dot_update(a: Seq<u8>, b: Seq<u8>, c: int, w: u8, n: nat)
    requires
        0 <= c < b.len(),
        n <= b.len(),
    ensures
        c < n ==> dot(a, b.update(c, w), n) == dot(a, b, n) ^ gf_product(a[c], b[c] ^ w),
        c >= n ==> dot(a, b.update(c, w), n) == dot(a, b, n),
    decreases n,
{
    if n > 0 {
        let m = (n - 1) as nat;
        lemma_dot_update(a, b, c, w, m);
        let d = dot(a, b, m);
        if c == n - 1 {
            lemma_product_add_right(a[c], b[c], w);
            lemma_xor(b[c], w, 0);
            let p = gf_product(a[c], b[c]);
            let q = gf_product(a[c], w);
            assert((d ^ p) ^ (p ^ q) == d ^ q) by (bit_vector);
        } else if c < n - 1 {
            let p = gf_product(a[c], b[c] ^ w);
            let q = gf_product(a[n - 1], b[n - 1]);
            assert((d ^ p) ^ q == (d ^ q) ^ p) by (bit_vector);
        }
    }
}

/// What one changed entry of the first vector adds to the product.
pub proof fn lemma_dot_update_left(a: Seq<u8>, b: Seq<u8>, c: int, w: u8, n: nat)
    requires
        0 <= c < n,
        n <= a.len(),
    ensures
        dot(a.update(c, w), b, n) == dot(a, b, n) ^ gf_product(a[c] ^ w, b[c]),
{
    lemma_dot_commutes(a.update(c, w), b, n);
    lemma_dot_commutes(a, b, n);
    lemma_dot_update(b, a, c, w, n);
    lemma_product_commutes(b[c], a[c] ^ w);
}

/// The product with a vector of zeros is zero.
pub proof fn lemma_dot_zero(a: Seq<u8>, b: Seq<u8>, n: nat)
    requires
        forall|i: int| 0 <= i < n ==> a[i] == 0 || b[i] == 0,
    ensures
        dot(a, b, n) == 0,
    decreases n,
{
    if n > 0 {
        lemma_dot_zero(a, b, (n - 1) as nat);
        lemma_product_units(a[n - 1]);
        lemma_product_units(b[n - 1]);
        lemma_xor(0, 0, 0);
    }
}

/// The same two entries exchanged in both vectors leave the product alone.
pub proof fn lemma_dot_exchange(a: Seq<u8>, b: Seq<u8>, r: int, c: int, n: nat)
    requires
        0 <= r < n,
        0 <= c < n,
        n <= a.len(),
        n <= b.len(),
    ensures
        dot(exchange(a, r, c), exchange(b, r, c), n) == dot(a, b, n),
{
    if r != c {
        let a1 = a.update(r, a[c]);
        let a2 = a1.update(c, a[r]);
        let b1 = b.update(r, b[c]);
        let b2 = b1.update(c, b[r]);
        assert(exchange(a, r, c) =~= a2);
        assert(exchange(b, r, c) =~= b2);
        lemma_dot_update(a2, b1, c, b[r], n);
        lemma_dot_update(a2, b, r, b[c], n);
        lemma_dot_update_left(a1, b, c, a[r], n);
        lemma_dot_update_left(a, b, r, a[c], n);
        let d = dot(a, b, n);
        let x = a[r] ^ a[c];
        lemma_xor(a[r], a[c], 0);
        lemma_xor(b[r], b[c], 0);
        let y = b[r] ^ b[c];
        assert(dot(a1, b, n) == d ^ gf_product(x, b[r]));
        assert(dot(a2, b, n) == dot(a1, b, n) ^ gf_product(x, b[c]));
        assert(dot(a2, b1, n) == dot(a2, b, n) ^ gf_product(a[c], y));
        assert(dot(a2, b2, n) == dot(a2, b1, n) ^ gf_product(a[r], y));
        lemma_product_add_right(x, b[r], b[c]);
        lemma_product_add_left(a[c], a[r], y);
        lemma_xor(a[c], a[r], 0);
        let p = gf_product(x, b[r]);
        let q = gf_product(x, b[c]);
        let s = gf_product(a[c], y);
        let t = gf_product(a[r], y);
        assert(p ^ q == gf_product(x, y));
        assert(s ^ t == gf_product(x, y));
        assert((((d ^ p) ^ q) ^ s) ^ t == d) by (bit_vector)
            requires
                p ^ q == s ^ t,
        ;
    } else {
        assert(exchange(a, r, c) =~= a);
        assert(exchange(b, r, c) =~= b);
    }
}

/// A sequence with two entries exchanged.
pub open spec fn exchange<A>(s: Seq<A>, i: int, j: int) -> Seq<A> {
    s.update(i, s[j]).update(j, s[i])
}

/// `m` has `k` rows of `k` entries.
pub open spec fn square(m: Seq<Seq<u8>>, k: nat) -> bool {
    m.len() == k && forall|i: int| 0 <= i < k ==> (#[trigger] m[i]).len() == k
}

/// `y` is the product of the matrix `m` and the vector `x`.
pub open spec fn maps_to(m: Seq<Seq<u8>>, x: Seq<u8>, y: Seq<u8>) -> bool {
    &&& x.len() == m.len()
    &&& y.len() == m.len()
    &&& forall|i: int| 0 <= i < m.len() ==> #[trigger] dot(m[i], x, m.len()) == y[i]
}

/// The vector that the columns of a partly inverted matrix are applied to: a
/// finished column takes an entry of the image, another one of the argument.
spec fn column_side(done: Seq<bool>, q: Seq<int>, x: Seq<u8>, y: Seq<u8>) -> Seq<u8> {
    Seq::new(done.len(), |j: int| if done[j] { y[q[j]] } else { x[j] })
}

/// What row `i` of a partly inverted matrix stands for: a finished row an entry
/// of the argument, another one of the image.
spec fn row_side(done: Seq<bool>, q: Seq<int>, x: Seq<u8>, y: Seq<u8>, i: int) -> u8 {
    if done[i] {
        x[i]
    } else {
        y[q[i]]
    }
}

/// The partly inverted matrix `s` relates `x` and `y`.
spec fn relates(s: Seq<Seq<u8>>, done: Seq<bool>, q: Seq<int>, x: Seq<u8>, y: Seq<u8>) -> bool {
    forall|i: int|
        0 <= i < s.len() ==> #[trigger] dot(s[i], column_side(done, q, x, y), s.len()) == row_side(
            done,
            q,
            x,
            y,
            i,
        )
}

/// The partly inverted matrix `s` relates the vectors that `a` does.
spec fn equivalent(a: Seq<Seq<u8>>, s: Seq<Seq<u8>>, done: Seq<bool>, q: Seq<int>) -> bool {
    forall|x: Seq<u8>, y: Seq<u8>|
        x.len() == a.len() && y.len() == a.len() ==> (#[trigger] relates(s, done, q, x, y)
            <==> maps_to(a, x, y))
}

/// The row numbers in order.
spec fn identity(k: nat) -> Seq<int> {
    Seq::new(k, |i: int| i)
}

/// At the start the matrix relates what it maps.
proof fn lemma_start(a: Seq<Seq<u8>>, k: nat)
    requires
        square(a, k),
    ensures
        equivalent(a, a, Seq::new(k, |i: int| false), identity(k)),
{
    let done = Seq::new(k, |i: int| false);
    let q = identity(k);
    assert forall|x: Seq<u8>, y: Seq<u8>| x.len() == k && y.len() == k implies (
    #[trigger] relates(a, done, q, x, y) <==> maps_to(a, x, y)) by {
        assert(column_side(done, q, x, y) =~= x);
        assert forall|i: int| 0 <= i < k implies row_side(done, q, x, y, i) == y[i] by {}
        if maps_to(a, x, y) {
            assert(relates(a, done, q, x, y));
        }
        if relates(a, done, q, x, y) {
            assert forall|i: int| 0 <= i < k implies #[trigger] dot(a[i], x, k) == y[i] by {
                assert(dot(a[i], column_side(done, q, x, y), a.len()) == row_side(done, q, x, y, i));
            }
        }
    }
}

/// Exchanging two unfinished rows keeps the relation.
proof fn lemma_exchange_rows(
    a: Seq<Seq<u8>>,
    s: Seq<Seq<u8>>,
    done: Seq<bool>,
    q: Seq<int>,
    r: int,
    c: int,
    k: nat,
)
    requires
        square(a, k),
        square(s, k),
        done.len() == k,
        q.len() == k,
        0 <= r < k,
        0 <= c < k,
        !done[r],
        !done[c],
        equivalent(a, s, done, q),
    ensures
        equivalent(a, exchange(s, r, c), done, exchange(q, r, c)),
{
    let s2 = exchange(s, r, c);
    let q2 = exchange(q, r, c);
    assert forall|x: Seq<u8>, y: Seq<u8>| x.len() == k && y.len() == k implies (
    #[trigger] relates(s2, done, q2, x, y) <==> maps_to(a, x, y)) by {
        let v = column_side(done, q, x, y);
        assert(column_side(done, q2, x, y) =~= v);
        assert(relates(s, done, q, x, y) <==> maps_to(a, x, y));
        if relates(s, done, q, x, y) {
            assert forall|i: int| 0 <= i < k implies #[trigger] dot(
                s2[i],
                column_side(done, q2, x, y),
                s2.len(),
            ) == row_side(done, q2, x, y, i) by {
                let o = if i == r { c } else if i == c { r } else { i };
                assert(dot(s[o], column_side(done, q, x, y), s.len()) == row_side(
                    done,
                    q,
                    x,
                    y,
                    o,
                ));
            }
        }
        if relates(s2, done, q2, x, y) {
            assert forall|i: int| 0 <= i < k implies #[trigger] dot(
                s[i],
                column_side(done, q, x, y),
                s.len(),
            ) == row_side(done, q, x, y, i) by {
                let o = if i == r { c } else if i == c { r } else { i };
                assert(dot(s2[o], column_side(done, q2, x, y), s2.len()) == row_side(
                    done,
                    q2,
                    x,
                    y,
                    o,
                ));
            }
        }
    }
}

/// `s2` is `s` after the elimination step at the pivot in row and column `c`.
spec fn eliminated(s: Seq<Seq<u8>>, s2: Seq<Seq<u8>>, c: int, k: nat) -> bool {
    &&& square(s2, k)
    &&& forall|j: int|
        0 <= j < k ==> #[trigger] s2[c][j] == gf_product(
            gf_inverse(s[c][c]),
            s[c].update(c, 1)[j],
        )
    &&& forall|i: int, j: int|
        0 <= i < k && i != c && 0 <= j < k ==> #[trigger] s2[i][j] == s[i].update(c, 0)[j]
            ^ gf_product(s[i][c], s2[c][j])
}

/// The elimination step keeps the relation for one pair of vectors.
proof fn lemma_pivot_pair(
    s: Seq<Seq<u8>>,
    s2: Seq<Seq<u8>>,
    done: Seq<bool>,
    q: Seq<int>,
    c: int,
    k: nat,
    x: Seq<u8>,
    y: Seq<u8>,
)
    requires
        square(s, k),
        done.len() == k,
        q.len() == k,
        0 <= c < k,
        !done[c],
        s[c][c] != 0,
        eliminated(s, s2, c, k),
        x.len() == k,
        y.len() == k,
    ensures
        relates(s, done, q, x, y) <==> relates(s2, done.update(c, true), q, x, y),
{
    let done2 = done.update(c, true);
    let v = column_side(done, q, x, y);
    let v2 = column_side(done2, q, x, y);
    let xc = x[c];
    let yc = y[q[c]];
    let p = s[c][c];
    let pi = gf_inverse(p);
    assert(v2 =~= v.update(c, yc));
    assert(v[c] == xc);
    let d = dot(s[c], v, k);
    let r1 = s[c].update(c, 1);
    // The pivot row.
    assert(dot(r1, v, k) == d ^ gf_product(p ^ 1, xc)) by {
        lemma_dot_update_left(s[c], v, c, 1, k);
    }
    assert(dot(r1, v2, k) == dot(r1, v, k) ^ (xc ^ yc)) by {
        lemma_dot_update(r1, v, c, yc, k);
        lemma_product_units(xc ^ yc);
    }
    let pxc = gf_product(p, xc);
    assert(gf_product(p ^ 1, xc) == pxc ^ xc) by {
        lemma_product_add_left(p, 1, xc);
        lemma_product_units(xc);
    }
    assert((d ^ (pxc ^ xc)) ^ (xc ^ yc) == (d ^ yc) ^ pxc) by (bit_vector);
    assert(dot(r1, v2, k) == (d ^ yc) ^ pxc);
    let e = dot(s2[c], v2, k);
    assert(e == gf_product(pi, d ^ yc) ^ xc) by {
        assert forall|j: int| 0 <= j < k implies s2[c][j] == gf_product(pi, #[trigger] r1[j]) by {
            assert(s2[c][j] == gf_product(gf_inverse(s[c][c]), s[c].update(c, 1)[j]));
        }
        lemma_dot_scale(pi, r1, s2[c], v2, k);
        lemma_product_add_right(pi, d ^ yc, pxc);
        lemma_product_associates(pi, p, xc);
        lemma_inverse(p);
        lemma_product_units(xc);
    }
    let g = gf_product(pi, d ^ yc);
    assert(e == xc <==> d == yc) by {
        lemma_xor(g, xc, xc);
        lemma_xor(xc, xc, 0);
        lemma_xor(d, yc, 0);
        if e == xc {
            assert(g == 0);
            lemma_inverse(p);
            lemma_no_zero_divisors(pi, d ^ yc);
        }
        if d == yc {
            lemma_product_units(pi);
        }
    }
    // The other rows.
    assert forall|i: int| 0 <= i < k && i != c && e == xc implies #[trigger] dot(s2[i], v2, k)
        == dot(s[i], v, k) by {
        let f = s[i][c];
        let r0 = s[i].update(c, 0);
        let fs = Seq::new(k, |j: int| gf_product(f, s2[c][j]));
        assert forall|j: int| 0 <= j < k implies s2[i][j] == #[trigger] r0[j] ^ fs[j] by {
            assert(s2[i][j] == s[i].update(c, 0)[j] ^ gf_product(s[i][c], s2[c][j]));
        }
        lemma_dot_add(r0, fs, s2[i], v2, k);
        assert forall|j: int| 0 <= j < k implies fs[j] == gf_product(f, #[trigger] s2[c][j]) by {}
        lemma_dot_scale(f, s2[c], fs, v2, k);
        lemma_dot_update(r0, v, c, yc, k);
        lemma_product_units(xc ^ yc);
        lemma_dot_update_left(s[i], v, c, 0, k);
        let t = dot(s[i], v, k);
        lemma_xor(f, 0, 0);
        lemma_xor(dot(r0, v, k), 0, 0);
        let fx = gf_product(f, xc);
        lemma_xor(t, fx, 0);
        assert(dot(r0, v, k) == t ^ fx);
        assert(dot(r0, v2, k) == t ^ fx);
    }
    if relates(s, done, q, x, y) {
        assert(dot(s[c], column_side(done, q, x, y), s.len()) == row_side(done, q, x, y, c));
        assert forall|i: int| 0 <= i < s2.len() implies #[trigger] dot(
            s2[i],
            column_side(done2, q, x, y),
            s2.len(),
        ) == row_side(done2, q, x, y, i) by {
            if i != c {
                assert(dot(s[i], column_side(done, q, x, y), s.len()) == row_side(
                    done,
                    q,
                    x,
                    y,
                    i,
                ));
                assert(dot(s2[i], v2, k) == dot(s[i], v, k));
            }
        }
    }
    if relates(s2, done2, q, x, y) {
        assert(dot(s2[c], column_side(done2, q, x, y), s2.len()) == row_side(done2, q, x, y, c));
        assert forall|i: int| 0 <= i < s.len() implies #[trigger] dot(
            s[i],
            column_side(done, q, x, y),
            s.len(),
        ) == row_side(done, q, x, y, i) by {
            if i != c {
                assert(dot(s2[i], column_side(done2, q, x, y), s2.len()) == row_side(
                    done2,
                    q,
                    x,
                    y,
                    i,
                ));
                assert(dot(s2[i], v2, k) == dot(s[i], v, k));
            }
        }
    }
}

/// The elimination step keeps the relation.
proof fn lemma_pivot(
    a: Seq<Seq<u8>>,
    s: Seq<Seq<u8>>,
    s2: Seq<Seq<u8>>,
    done: Seq<bool>,
    q: Seq<int>,
    c: int,
    k: nat,
)
    requires
        square(a, k),
        square(s, k),
        done.len() == k,
        q.len() == k,
        0 <= c < k,
        !done[c],
        s[c][c] != 0,
        eliminated(s, s2, c, k),
        equivalent(a, s, done, q),
    ensures
        equivalent(a, s2, done.update(c, true), q),
{
    assert forall|x: Seq<u8>, y: Seq<u8>| x.len() == a.len() && y.len() == a.len() implies (
    #[trigger] relates(s2, done.update(c, true), q, x, y) <==> maps_to(a, x, y)) by {
        lemma_pivot_pair(s, s2, done, q, c, k, x, y);
        assert(relates(s, done, q, x, y) <==> maps_to(a, x, y));
    }
}

/// `s` maps `y` to `x` just where `a` maps `x` to `y`.
pub open spec fn inverse_of(s: Seq<Seq<u8>>, a: Seq<Seq<u8>>) -> bool {
    forall|x: Seq<u8>, y: Seq<u8>|
        x.len() == a.len() && y.len() == a.len() ==> (#[trigger] maps_to(a, x, y) <==> maps_to(
            s,
            y,
            x,
        ))
}

/// A matrix maps a vector other than zero to zero.
pub open spec fn singular(m: Seq<Seq<u8>>) -> bool {
    exists|x: Seq<u8>, y: Seq<u8>|
        #![trigger maps_to(m, x, y)]
        maps_to(m, x, y) && (exists|i: int| 0 <= i < x.len() && x[i] != 0) && (forall|i: int|
            0 <= i < y.len() ==> y[i] == 0)
}

/// Where no pivot is left, the matrix maps a vector other than zero to zero.
proof fn lemma_no_pivot(
    a: Seq<Seq<u8>>,
    s: Seq<Seq<u8>>,
    done: Seq<bool>,
    q: Seq<int>,
    j0: int,
    k: nat,
)
    requires
        square(a, k),
        square(s, k),
        done.len() == k,
        q.len() == k,
        forall|i: int| 0 <= i < k ==> 0 <= #[trigger] q[i] < k,
        equivalent(a, s, done, q),
        0 <= j0 < k,
        !done[j0],
        forall|i: int, j: int|
            0 <= i < k && 0 <= j < k && !done[i] && !done[j] ==> #[trigger] s[i][j] == 0,
    ensures
        singular(a),
{
    let y = Seq::new(k, |i: int| 0u8);
    let v = Seq::new(k, |j: int| if j == j0 { 1u8 } else { 0u8 });
    let x = Seq::new(k, |i: int| if done[i] { dot(s[i], v, k) } else { v[i] });
    assert(column_side(done, q, x, y) =~= v);
    assert forall|i: int| 0 <= i < k implies #[trigger] dot(
        s[i],
        column_side(done, q, x, y),
        s.len(),
    ) == row_side(done, q, x, y, i) by {
        if !done[i] {
            assert forall|j: int| 0 <= j < k implies s[i][j] == 0 || v[j] == 0 by {
                if j == j0 {
                    assert(s[i][j0] == 0);
                }
            }
            lemma_dot_zero(s[i], v, k);
        }
    }
    assert(relates(s, done, q, x, y));
    assert(maps_to(a, x, y));
    assert(x[j0] != 0);
}

/// The number of entries that hold.
spec fn count_true(s: Seq<bool>) -> nat
    decreases s.len(),
{
    if s.len() == 0 {
        0
    } else {
        count_true(s.drop_last()) + if s.last() {
            1nat
        } else {
            0nat
        }
    }
}

proof fn lemma_count_update(s: Seq<bool>, i: int)
    requires
        0 <= i < s.len(),
        !s[i],
    ensures
        count_true(s.update(i, true)) == count_true(s) + 1,
    decreases s.len(),
{
    let t = s.update(i, true);
    if i == s.len() - 1 {
        assert(t.drop_last() =~= s.drop_last());
    } else {
        assert(t.drop_last() =~= s.drop_last().update(i, true));
        lemma_count_update(s.drop_last(), i);
    }
}

proof fn lemma_count_none(s: Seq<bool>)
    requires
        forall|i: int| 0 <= i < s.len() ==> !s[i],
    ensures
        count_true(s) == 0,
    decreases s.len(),
{
    if s.len() > 0 {
        lemma_count_none(s.drop_last());
    }
}

proof fn lemma_count_bound(s: Seq<bool>)
    ensures
        count_true(s) <= s.len(),
        count_true(s) == s.len() ==> forall|i: int| 0 <= i < s.len() ==> s[i],
        count_true(s) < s.len() ==> exists|i: int| 0 <= i < s.len() && !s[i],
    decreases s.len(),
{
    if s.len() > 0 {
        let t = s.drop_last();
        lemma_count_bound(t);
        if count_true(s) == s.len() {
            assert forall|i: int| 0 <= i < s.len() implies s[i] by {
                if i < t.len() {
                    assert(t[i]);
                }
            }
        } else if !s.last() {
            assert(!s[s.len() - 1]);
        } else {
            let i = choose|i: int| 0 <= i < t.len() && !t[i];
            assert(!s[i]);
        }
    }
}

/// The rows of a matrix in memory.
pub open spec fn rows(m: Seq<Vec<u8>>) -> Seq<Seq<u8>> {
    Seq::new(m.len(), |i: int| m[i]@)
}

/// A row more is a row more.
pub proof fn lemma_rows_push(m: Seq<Vec<u8>>, row: Vec<u8>)
    ensures
        rows(m.push(row)) == rows(m).push(row@),
{
    assert(rows(m.push(row)) =~= rows(m).push(row@));
}

/// The entries of `y` in the order `q`.
spec fn in_order(y: Seq<u8>, q: Seq<int>) -> Seq<u8> {
    Seq::new(q.len(), |j: int| y[q[j]])
}

/// `s` maps a vector, its entries in the order `q`, to the one that `a` maps to
/// it.
spec fn undoes(a: Seq<Seq<u8>>, s: Seq<Seq<u8>>, q: Seq<int>) -> bool {
    forall|x: Seq<u8>, y: Seq<u8>|
        x.len() == a.len() && y.len() == a.len() ==> (#[trigger] maps_to(a, x, y) <==> maps_to(
            s,
            in_order(y, q),
            x,
        ))
}

/// When every column is finished, the matrix undoes the one it came from.
proof fn lemma_finished(a: Seq<Seq<u8>>, s: Seq<Seq<u8>>, done: Seq<bool>, q: Seq<int>, k: nat)
    requires
        square(a, k),
        square(s, k),
        done.len() == k,
        q.len() == k,
        forall|i: int| 0 <= i < k ==> done[i],
        equivalent(a, s, done, q),
    ensures
        undoes(a, s, q),
{
    assert forall|x: Seq<u8>, y: Seq<u8>| x.len() == a.len() && y.len() == a.len() implies (
    #[trigger] maps_to(a, x, y) <==> maps_to(s, in_order(y, q), x)) by {
        assert(relates(s, done, q, x, y) <==> maps_to(a, x, y));
        assert(column_side(done, q, x, y) =~= in_order(y, q));
        if maps_to(a, x, y) {
            assert forall|i: int| 0 <= i < k implies #[trigger] dot(s[i], in_order(y, q), k)
                == x[i] by {
                assert(dot(s[i], column_side(done, q, x, y), s.len()) == row_side(
                    done,
                    q,
                    x,
                    y,
                    i,
                ));
            }
        }
        if maps_to(s, in_order(y, q), x) {
            assert forall|i: int| 0 <= i < k implies #[trigger] dot(
                s[i],
                column_side(done, q, x, y),
                s.len(),
            ) == row_side(done, q, x, y, i) by {
                assert(dot(s[i], in_order(y, q), s.len()) == x[i]);
            }
        }
    }
}

/// Exchanging two columns together with their places in the order.
proof fn lemma_exchange_columns(
    a: Seq<Seq<u8>>,
    s: Seq<Seq<u8>>,
    s2: Seq<Seq<u8>>,
    q: Seq<int>,
    r: int,
    c: int,
    k: nat,
)
    requires
        square(a, k),
        square(s, k),
        square(s2, k),
        q.len() == k,
        0 <= r < k,
        0 <= c < k,
        forall|i: int| 0 <= i < k ==> #[trigger] s2[i] == exchange(s[i], r, c),
        undoes(a, s, q),
    ensures
        undoes(a, s2, exchange(q, r, c)),
{
    let q2 = exchange(q, r, c);
    assert forall|x: Seq<u8>, y: Seq<u8>| x.len() == a.len() && y.len() == a.len() implies (
    #[trigger] maps_to(a, x, y) <==> maps_to(s2, in_order(y, q2), x)) by {
        assert(maps_to(a, x, y) <==> maps_to(s, in_order(y, q), x));
        assert(in_order(y, q2) =~= exchange(in_order(y, q), r, c));
        assert forall|i: int| 0 <= i < k implies dot(s2[i], in_order(y, q2), k) == #[trigger] dot(
            s[i],
            in_order(y, q),
            k,
        ) by {
            assert(s2[i] == exchange(s[i], r, c));
            lemma_dot_exchange(s[i], in_order(y, q), r, c, k);
        }
        if maps_to(a, x, y) {
            assert forall|i: int| 0 <= i < k implies #[trigger] dot(s2[i], in_order(y, q2), k)
                == x[i] by {
                assert(dot(s[i], in_order(y, q), s.len()) == x[i]);
            }
        }
        if maps_to(s2, in_order(y, q2), x) {
            assert forall|i: int| 0 <= i < k implies #[trigger] dot(s[i], in_order(y, q), k)
                == x[i] by {
                assert(dot(s2[i], in_order(y, q2), s2.len()) == x[i]);
            }
        }
    }
}

/// A pivot for step `col`: the diagonal entry where it serves, else the first
/// entry other than zero in an unfinished row and column.
fn find_pivot(m: &Vec<Vec<u8>>, done: &Vec<bool>, col: usize) -> (r: Option<(usize, usize)>)
    requires
        square(rows(m@), m@.len()),
        done@.len() == m@.len(),
        col < m@.len(),
    ensures
        match r {
            Some((irow, icol)) => {
                &&& irow < m@.len()
                &&& icol < m@.len()
                &&& !done@[irow as int]
                &&& !done@[icol as int]
                &&& rows(m@)[irow as int][icol as int] != 0
            },
            None => forall|i: int, j: int|
                0 <= i < m@.len() && 0 <= j < m@.len() && !done@[i] && !done@[j]
                    ==> #[trigger] rows(m@)[i][j] == 0,
        },
{
    let k = m.len();
    let ghost s = rows(m@);
    assert(s[col as int].len() == k);
    if !done[col] && m[col][col] != 0 {
        return Some((col, col));
    }
    let mut row: usize = 0;
    while row < k
        invariant
            k == m@.len(),
            s == rows(m@),
            square(s, k as nat),
            done@.len() == k,
            row <= k,
            forall|i: int, j: int|
                0 <= i < row && 0 <= j < k && !done@[i] && !done@[j] ==> #[trigger] s[i][j] == 0,
        decreases k - row,
    {
        if !done[row] {
            let mut ix: usize = 0;
            while ix < k
                invariant
                    k == m@.len(),
                    s == rows(m@),
                    square(s, k as nat),
                    done@.len() == k,
                    row < k,
                    !done@[row as int],
                    ix <= k,
                    forall|j: int| 0 <= j < ix && !done@[j] ==> #[trigger] s[row as int][j] == 0,
                decreases k - ix,
            {
                assert(s[row as int].len() == k);
                if !done[ix] && m[row][ix] != 0 {
                    return Some((row, ix));
                }
                ix += 1;
            }
        }
        row += 1;
    }
    None
}

/// Sets one entry.
fn put(m: &mut Vec<Vec<u8>>, i: usize, j: usize, v: u8)
    requires
        i < old(m)@.len(),
        j < rows(old(m)@)[i as int].len(),
    ensures
        rows(final(m)@) == rows(old(m)@).update(
            i as int,
            rows(old(m)@)[i as int].update(j as int, v),
        ),
        final(m)@.len() == old(m)@.len(),
{
    let ghost s = rows(m@);
    m[i][j] = v;
    assert(rows(m@) =~~= s.update(i as int, s[i as int].update(j as int, v)));
}

/// Exchanges two rows.
fn exchange_rows(m: &mut Vec<Vec<u8>>, r: usize, c: usize)
    requires
        square(rows(old(m)@), old(m)@.len()),
        r < old(m)@.len(),
        c < old(m)@.len(),
    ensures
        final(m)@.len() == old(m)@.len(),
        square(rows(final(m)@), old(m)@.len()),
        rows(final(m)@) == exchange(rows(old(m)@), r as int, c as int),
{
    let k = m.len();
    let ghost s = rows(m@);
    let mut ix: usize = 0;
    while ix < k
        invariant
            k == m@.len(),
            k == s.len(),
            square(s, k as nat),
            square(rows(m@), k as nat),
            r < k,
            c < k,
            ix <= k,
            forall|i: int| 0 <= i < k && i != r && i != c ==> #[trigger] rows(m@)[i] == s[i],
            forall|j: int|
                0 <= j < k ==> #[trigger] rows(m@)[r as int][j] == if j < ix {
                    s[c as int][j]
                } else {
                    s[r as int][j]
                },
            forall|j: int|
                0 <= j < k ==> #[trigger] rows(m@)[c as int][j] == if j < ix {
                    s[r as int][j]
                } else {
                    s[c as int][j]
                },
        decreases k - ix,
    {
        assert(rows(m@)[r as int].len() == k);
        assert(rows(m@)[c as int].len() == k);
        let a: u8 = m[r][ix];
        let b: u8 = m[c][ix];
        put(m, r, ix, b);
        put(m, c, ix, a);
        ix += 1;
    }
    assert(rows(m@) =~~= exchange(s, r as int, c as int));
}

/// Exchanges two columns.
fn exchange_columns(m: &mut Vec<Vec<u8>>, r: usize, c: usize)
    requires
        square(rows(old(m)@), old(m)@.len()),
        r < old(m)@.len(),
        c < old(m)@.len(),
    ensures
        final(m)@.len() == old(m)@.len(),
        square(rows(final(m)@), old(m)@.len()),
        forall|i: int|
            0 <= i < old(m)@.len() ==> #[trigger] rows(final(m)@)[i] == exchange(
                rows(old(m)@)[i],
                r as int,
                c as int,
            ),
{
    let k = m.len();
    let ghost s = rows(m@);
    let mut row: usize = 0;
    while row < k
        invariant
            k == m@.len(),
            k == s.len(),
            square(s, k as nat),
            square(rows(m@), k as nat),
            r < k,
            c < k,
            row <= k,
            forall|i: int|
                0 <= i < k ==> #[trigger] rows(m@)[i] == if i < row {
                    exchange(s[i], r as int, c as int)
                } else {
                    s[i]
                },
        decreases k - row,
    {
        assert(rows(m@)[row as int].len() == k);
        let a: u8 = m[row][r];
        let b: u8 = m[row][c];
        put(m, row, r, b);
        put(m, row, c, a);
        row += 1;
    }
}

/// Multiplies the pivot row by the inverse of the pivot, in whose place the
/// inverse itself remains.
fn scale_row(t: &FecTables, m: &mut Vec<Vec<u8>>, c: usize)
    requires
        square(rows(old(m)@), old(m)@.len()),
        c < old(m)@.len(),
        rows(old(m)@)[c as int][c as int] != 0,
    ensures
        final(m)@.len() == old(m)@.len(),
        square(rows(final(m)@), old(m)@.len()),
        forall|i: int|
            0 <= i < old(m)@.len() && i != c ==> #[trigger] rows(final(m)@)[i] == rows(old(m)@)[i],
        forall|j: int|
            0 <= j < old(m)@.len() ==> #[trigger] rows(final(m)@)[c as int][j] == gf_product(
                gf_inverse(rows(old(m)@)[c as int][c as int]),
                rows(old(m)@)[c as int].update(c as int, 1)[j],
            ),
{
    let k = m.len();
    let ghost s = rows(m@);
    assert(s[c as int].len() == k);
    let pivot: u8 = m[c][c];
    if pivot == 1 {
        proof {
            lemma_product_units(1);
            crate::gf::lemma_inverse_unique(1, 1);
            assert forall|j: int| 0 <= j < k implies #[trigger] rows(m@)[c as int][j] == gf_product(
                gf_inverse(s[c as int][c as int]),
                s[c as int].update(c as int, 1)[j],
            ) by {
                lemma_product_units(s[c as int].update(c as int, 1)[j]);
            }
        }
        return ;
    }
    let f: u8 = t.gf_inv(pivot);
    put(m, c, c, 1);
    let ghost r1 = s[c as int].update(c as int, 1);
    let mut ix: usize = 0;
    while ix < k
        invariant
            k == m@.len(),
            k == s.len(),
            square(s, k as nat),
            square(rows(m@), k as nat),
            c < k,
            ix <= k,
            r1 == s[c as int].update(c as int, 1),
            f == gf_inverse(s[c as int][c as int]),
            forall|i: int| 0 <= i < k && i != c ==> #[trigger] rows(m@)[i] == s[i],
            forall|j: int|
                0 <= j < k ==> #[trigger] rows(m@)[c as int][j] == if j < ix {
                    gf_product(f, r1[j])
                } else {
                    r1[j]
                },
        decreases k - ix,
    {
        assert(rows(m@)[c as int].len() == k);
        let v: u8 = t.gf_mul(f, m[c][ix]);
        put(m, c, ix, v);
        ix += 1;
    }
}

/// Adds multiples of row `c` to the other rows so that they lose their entry
/// in column `c`.
fn clear_column(t: &FecTables, m: &mut Vec<Vec<u8>>, c: usize)
    requires
        square(rows(old(m)@), old(m)@.len()),
        c < old(m)@.len(),
    ensures
        final(m)@.len() == old(m)@.len(),
        square(rows(final(m)@), old(m)@.len()),
        rows(final(m)@)[c as int] == rows(old(m)@)[c as int],
        forall|i: int, j: int|
            0 <= i < old(m)@.len() && i != c && 0 <= j < old(m)@.len() ==> #[trigger] rows(
                final(m)@,
            )[i][j] == rows(old(m)@)[i].update(c as int, 0)[j] ^ gf_product(
                rows(old(m)@)[i][c as int],
                rows(old(m)@)[c as int][j],
            ),
{
    let k = m.len();
    let ghost s = rows(m@);
    let mut i: usize = 0;
    while i < k
        invariant
            k == m@.len(),
            k == s.len(),
            square(s, k as nat),
            square(rows(m@), k as nat),
            c < k,
            i <= k,
            forall|r: int| i <= r < k || r == c ==> #[trigger] rows(m@)[r] == s[r],
            forall|r: int, j: int|
                0 <= r < i && r != c && 0 <= j < k ==> #[trigger] rows(m@)[r][j] == s[r].update(
                    c as int,
                    0,
                )[j] ^ gf_product(s[r][c as int], s[c as int][j]),
        decreases k - i,
    {
        if i != c {
            assert(rows(m@)[i as int].len() == k);
            let f: u8 = m[i][c];
            put(m, i, c, 0);
            let ghost r0 = s[i as int].update(c as int, 0);
            let ghost mid = rows(m@);
            let mut ix: usize = 0;
            while ix < k
                invariant
                    k == m@.len(),
                    k == s.len(),
                    square(s, k as nat),
                    square(rows(m@), k as nat),
                    square(mid, k as nat),
                    c < k,
                    i < k,
                    i != c,
                    ix <= k,
                    r0 == s[i as int].update(c as int, 0),
                    f == s[i as int][c as int],
                    rows(m@)[c as int] == s[c as int],
                    forall|r: int| 0 <= r < k && r != i ==> #[trigger] rows(m@)[r] == mid[r],
                    forall|j: int|
                        0 <= j < k ==> #[trigger] rows(m@)[i as int][j] == if j < ix {
                            r0[j] ^ gf_product(f, s[c as int][j])
                        } else {
                            r0[j]
                        },
                decreases k - ix,
            {
                assert(rows(m@)[i as int].len() == k);
                assert(rows(m@)[c as int].len() == k);
                let v: u8 = m[i][ix] ^ t.gf_mul(f, m[c][ix]);
                put(m, i, ix, v);
                ix += 1;
            }
            assert forall|r: int, j: int| 0 <= r <= i && r != c && 0 <= j < k implies
                #[trigger] rows(m@)[r][j] == s[r].update(c as int, 0)[j] ^ gf_product(
                s[r][c as int],
                s[c as int][j],
            ) by {
                if r < i {
                    assert(rows(m@)[r] == mid[r]);
                }
            }
        }
        i += 1;
    }
}

/// Inverts a square matrix in place. Returns false, and leaves the matrix in
/// pieces, where it has no inverse.
pub fn invert_mat(t: &FecTables, m: &mut Vec<Vec<u8>>) -> (r: bool)
    requires
        square(rows(old(m)@), old(m)@.len()),
    ensures
        final(m)@.len() == old(m)@.len(),
        square(rows(final(m)@), old(m)@.len()),
        r ==> inverse_of(rows(final(m)@), rows(old(m)@)),
        !r ==> singular(rows(old(m)@)),
{
    let k = m.len();
    let ghost a = rows(m@);
    let mut done: Vec<bool> = vec![false; k];
    let mut indxr: Vec<usize> = Vec::new();
    let mut indxc: Vec<usize> = Vec::new();
    let ghost mut q = identity(k as nat);
    let ghost mut orders = seq![q];
    proof {
        lemma_start(a, k as nat);
        assert(done@ =~= Seq::new(k as nat, |i: int| false));
        lemma_count_none(done@);
    }
    let mut col: usize = 0;
    while col < k
        invariant
            k == m@.len(),
            k == old(m)@.len(),
            a == rows(old(m)@),
            square(a, k as nat),
            square(rows(m@), k as nat),
            col <= k,
            done@.len() == k,
            count_true(done@) == col,
            q.len() == k,
            forall|i: int| 0 <= i < k ==> 0 <= #[trigger] q[i] < k,
            equivalent(a, rows(m@), done@, q),
            indxr@.len() == col,
            indxc@.len() == col,
            forall|i: int| 0 <= i < col ==> #[trigger] indxr@[i] < k,
            forall|i: int| 0 <= i < col ==> #[trigger] indxc@[i] < k,
            orders.len() == col + 1,
            orders[0] == identity(k as nat),
            orders[col as int] == q,
            forall|i: int|
                0 <= i <= col ==> (#[trigger] orders[i]).len() == k,
            forall|i: int|
                0 <= i < col ==> #[trigger] orders[i + 1] == exchange(
                    orders[i],
                    indxr@[i] as int,
                    indxc@[i] as int,
                ),
        decreases k - col,
    {
        let (irow, icol) = match find_pivot(m, &done, col) {
            Some(p) => p,
            None => {
                proof {
                    lemma_count_bound(done@);
                    let j0 = choose|j: int| 0 <= j < done@.len() && !done@[j];
                    lemma_no_pivot(a, rows(m@), done@, q, j0, k as nat);
                }
                return false;
            },
        };
        let ghost s0 = rows(m@);
        if irow != icol {
            exchange_rows(m, irow, icol);
        } else {
            assert(exchange(s0, irow as int, icol as int) =~= s0);
        }
        proof {
            lemma_exchange_rows(a, s0, done@, q, irow as int, icol as int, k as nat);
            let q2 = exchange(q, irow as int, icol as int);
            assert forall|i: int| 0 <= i < k implies 0 <= #[trigger] q2[i] < k by {}
            let before = orders;
            orders = orders.push(q2);
            q = q2;
        }
        let ghost s1 = rows(m@);
        scale_row(t, m, icol);
        let ghost s2 = rows(m@);
        clear_column(t, m, icol);
        proof {
            assert(eliminated(s1, rows(m@), icol as int, k as nat)) by {
                assert forall|i: int, j: int| 0 <= i < k && i != icol && 0 <= j < k implies
                    #[trigger] rows(m@)[i][j] == s1[i].update(icol as int, 0)[j] ^ gf_product(
                    s1[i][icol as int],
                    rows(m@)[icol as int][j],
                ) by {
                    assert(s2[i] == s1[i]);
                }
            }
            lemma_pivot(a, s1, rows(m@), done@, q, icol as int, k as nat);
            lemma_count_update(done@, icol as int);
        }
        indxr.push(irow);
        indxc.push(icol);
        done.set(icol, true);
        col += 1;
    }
    proof {
        lemma_count_bound(done@);
        lemma_finished(a, rows(m@), done@, q, k as nat);
    }
    while col > 0
        invariant
            k == m@.len(),
            k == old(m)@.len(),
            a == rows(old(m)@),
            square(a, k as nat),
            square(rows(m@), k as nat),
            col <= k,
            undoes(a, rows(m@), orders[col as int]),
            indxr@.len() == k,
            indxc@.len() == k,
            forall|i: int| 0 <= i < k ==> #[trigger] indxr@[i] < k,
            forall|i: int| 0 <= i < k ==> #[trigger] indxc@[i] < k,
            orders.len() == k + 1,
            orders[0] == identity(k as nat),
            forall|i: int| 0 <= i <= k ==> (#[trigger] orders[i]).len() == k,
            forall|i: int|
                0 <= i < k ==> #[trigger] orders[i + 1] == exchange(
                    orders[i],
                    indxr@[i] as int,
                    indxc@[i] as int,
                ),
        decreases col,
    {
        col -= 1;
        let r: usize = indxr[col];
        let c: usize = indxc[col];
        let ghost s0 = rows(m@);
        let ghost q0 = orders[col + 1];
        assert(exchange(q0, r as int, c as int) =~= orders[col as int]);
        if r != c {
            exchange_columns(m, r, c);
        } else {
            assert forall|i: int| 0 <= i < k implies #[trigger] rows(m@)[i] == exchange(
                s0[i],
                r as int,
                c as int,
            ) by {
                assert(exchange(s0[i], r as int, c as int) =~= s0[i]);
            }
        }
        proof {
            lemma_exchange_columns(a, s0, rows(m@), q0, r as int, c as int, k as nat);
        }
    }
    proof {
        assert forall|x: Seq<u8>, y: Seq<u8>| x.len() == a.len() && y.len() == a.len() implies (
        #[trigger] maps_to(a, x, y) <==> maps_to(rows(m@), y, x)) by {
            assert(in_order(y, identity(k as nat)) =~= y);
            assert(maps_to(a, x, y) <==> maps_to(rows(m@), in_order(y, orders[0]), x));
        }
    }
    true
}

} // verus!
