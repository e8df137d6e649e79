//! What the filters keep and what they take away.

use vstd::prelude::*;
use vstd::arithmetic::power2;
use crate::depth;
use crate::grid;
use crate::number;
use crate::number::{Op, Real, ONE, ZERO};
use crate::rounding;

verus! {

// ---------------------------------------------------------------------------
// Median
// ---------------------------------------------------------------------------

/// What is in a window is within reach of its pixel.
proof fn lemma_within_reach(src: Seq<Real>, w: int, h: int, r: int, x: int, y: int, n: int)
    requires
        r >= 0,
        0 <= n < depth::window_of(src, w, h, r, x, y).len(),
    ensures
        ({
            let side = 2 * r + 1;
            let (i, j) = (n % side - r, n / side - r);
            &&& -r <= i <= r && -r <= j <= r
            &&& depth::window_of(src, w, h, r, x, y)[n] == src[grid::pin(y + j, h) * w + grid::pin(
                x + i,
                w,
            )]
        }),
{
    let side = 2 * r + 1;
    assert(side * side >= 0) by (nonlinear_arith);
    grid::lemma_cell(side, side, n);
}

/// A median lies between the samples around its pixel: where none within reach
/// is above a number it is not above it, and where none is below it is not.
pub proof fn law_median_stays_between(src: Seq<Real>, w: int, h: int, size: int, k: int, c: Real)
    requires
        1 <= size <= 5,
        size % 2 == 1,
        w >= 1,
        h >= 1,
        src.len() == w * h,
        0 <= k < src.len(),
        !c.nan(),
        forall|i: int| 0 <= i < src.len() ==> !(#[trigger] src[i]).nan(),
    ensures
        ({
            let m = depth::median_of(src, w, h, size)[k];
            let r = (size - 1) / 2;
            &&& (forall|i: int, j: int|
                -r <= i <= r && -r <= j <= r ==> (#[trigger] near(src, w, h, k, i, j)).at_most(c))
                ==> m.at_most(c)
            &&& (forall|i: int, j: int|
                -r <= i <= r && -r <= j <= r ==> c.at_most(#[trigger] near(src, w, h, k, i, j)))
                ==> c.at_most(m)
        }),
{
    let r = (size - 1) / 2;
    assert(size / 2 == r);
    let (x, y) = (k % w, k / w);
    let m = depth::median_of(src, w, h, size)[k];
    assert(m == depth::median_at(src, w, h, r, x, y));
    depth::law_median_is_a_sample(src, w, h, r, x, y);
    let s = depth::window_of(src, w, h, r, x, y);
    let n = choose|n: int| 0 <= n < s.len() && s[n] == m;
    lemma_within_reach(src, w, h, r, x, y, n);
    let side = 2 * r + 1;
    assert(m == near(src, w, h, k, n % side - r, n / side - r));
}

/// The sample some columns and rows away from a pixel, or the nearest one.
pub open spec fn near(src: Seq<Real>, w: int, h: int, k: int, i: int, j: int) -> Real {
    src[grid::pin(k / w + j, h) * w + grid::pin(k % w + i, w)]
}

/// A median takes a single spike away: where all the samples around a pixel are
/// the same, that is what comes out, whatever the pixel itself was.
pub proof fn law_spike_is_removed(src: Seq<Real>, w: int, h: int, size: int, k: int, v: Real)
    requires
        3 <= size <= 5,
        size % 2 == 1,
        w >= 1,
        h >= 1,
        src.len() == w * h,
        0 <= k < src.len(),
        0 < k % w < w - 1,
        0 < k / w < h - 1,
        !v.nan(),
        !src[k].nan(),
        forall|i: int, j: int|
            -((size - 1) / 2) <= i <= (size - 1) / 2 && -((size - 1) / 2) <= j <= (size - 1) / 2 && (i
                != 0 || j != 0) ==> #[trigger] near(src, w, h, k, i, j) == v,
    ensures
        depth::median_of(src, w, h, size)[k].equals(v),
{
    let r = (size - 1) / 2;
    assert(size / 2 == r && 1 <= r <= 2);
    let (x, y) = (k % w, k / w);
    let s = depth::window_of(src, w, h, r, x, y);
    let side = 2 * r + 1;
    assert(side == 3 || side == 5);
    let mid = r * side + r;
    assert((r == 1 && side * side == 9 && mid == 4) || (r == 2 && side * side == 25 && mid == 12))
        by (nonlinear_arith)
        requires
            1 <= r <= 2,
            side == 2 * r + 1,
            mid == r * side + r,
    ;
    grid::lemma_cell(w, h, k);
    assert forall|n: int| 0 <= n < s.len() && n != mid implies #[trigger] s[n] == v by {
        lemma_within_reach(src, w, h, r, x, y, n);
        let (i, j) = (n % side - r, n / side - r);
        if i == 0 && j == 0 {
            assert(n == mid);
        }
        assert(near(src, w, h, k, i, j) == v);
    }
    lemma_within_reach(src, w, h, r, x, y, mid);
    assert(s[mid] == src[k]);
    lemma_mostly(s, v, mid);
    assert forall|i: int| 0 <= i < s.len() implies !(#[trigger] s[i]).nan() by {
        if i != mid {
            assert(s[i] == v);
        }
    }
    depth::law_majority_wins(src, w, h, r, x, y, v);
    depth::lemma_ordered(s);
    let m = depth::median_at(src, w, h, r, x, y);
    assert(!m.nan()) by {
        assert(!depth::ordered(s)[s.len() as int / 2].nan());
    }
}

/// All but one are the same.
proof fn lemma_mostly(s: Seq<Real>, v: Real, k: int)
    requires
        0 <= k < s.len(),
        forall|n: int| 0 <= n < s.len() && n != k ==> #[trigger] s[n] == v,
    ensures
        s.to_multiset().count(v) >= s.len() - 1,
    decreases s.len(),
{
    s.to_multiset_ensures();
    let t = s.remove(k);
    assert(forall|n: int| 0 <= n < t.len() ==> #[trigger] t[n] == v);
    lemma_all(t, v);
    assert(t.to_multiset() =~= s.to_multiset().remove(s[k]));
}

proof fn lemma_all(s: Seq<Real>, v: Real)
    requires
        forall|n: int| 0 <= n < s.len() ==> #[trigger] s[n] == v,
    ensures
        s.to_multiset().count(v) == s.len(),
    decreases s.len(),
{
    s.to_multiset_ensures();
    if s.len() > 0 {
        let t = s.drop_last();
        lemma_all(t, v);
        t.to_multiset_ensures();
        assert(s =~= t.push(v));
    }
}

// ---------------------------------------------------------------------------
// Blur
// ---------------------------------------------------------------------------

/// The exponential function, as far as the blur needs it: one at zero, and
/// between zero and one below, depending on nothing but the value.
pub open spec fn decays<F: Fn(Op, Real, Real) -> Real>(f: F) -> bool {
    forall|a: Real|
        a.finite() && a.quanta() <= 0 ==> {
            let e = #[trigger] number::exp(f, a);
            &&& e.finite() && 0 <= e.quanta() <= rounding::unit()
            &&& a.quanta() == 0 ==> e.quanta() == rounding::unit()
        }
}

/// A deviation that the settings offer.
pub open spec fn ordinary(sigma: Real) -> bool {
    sigma.finite() && rounding::two(-10) <= sigma.quanta() <= rounding::two(1)
}

/// The weights are shares, the middle one is one, and there are not many.
proof fn lemma_reach<F: Fn(Op, Real, Real) -> Real>(f: F, sigma: Real)
    requires
        rounding::rounds(f),
        ordinary(sigma),
    ensures
        1 <= depth::reach(f, sigma) <= 7,
        depth::reach(f, sigma) <= reach_of(sigma),
{
    rounding::lemma_constants();
    rounding::lemma_two(1);
    rounding::lemma_two(0);
    rounding::lemma_two(-10);
    let three = Real { bits: depth::THREE };
    let u = rounding::unit();
    assert(three.finite() && three.quanta() == 3 * u) by {
        assert(three.exponent() == 128 && three.significand() == 0xc0_0000);
        power2::lemma_pow2_adds(22, 127);
        vstd::arithmetic::power2::lemma2_to64();
        assert(0xc0_0000 * power2::pow2(127) == 3 * (0x40_0000 * power2::pow2(127)));
    }
    rounding::lemma_whole(6);
    let six = number::whole(6);
    let zero = Real { bits: ZERO };
    let (x, y) = (sigma.quanta(), three.quanta());
    assert(0 * u <= x * y <= (6 * u) * u) by (nonlinear_arith)
        requires
            0 <= x <= 2 * u,
            y == 3 * u,
            u > 0,
    ;
    rounding::lemma_product_side(f, sigma, three, zero);
    rounding::lemma_product_side(f, sigma, three, six);
    let t = number::times(f, sigma, three);
    assert(t.finite());
    rounding::lemma_order(zero, t);
    rounding::lemma_order(t, six);
    rounding::lemma_floored(t);
    let n = t.floored();
    assert(n <= 6) by (nonlinear_arith)
        requires
            n * u <= 6 * u,
            u > 0,
    ;
    // No whole number is passed on the way up.
    let v = 3 * x;
    let m = (v + u) / u;
    vstd::arithmetic::div_mod::lemma_fundamental_div_mod(v + u, u);
    vstd::arithmetic::div_mod::lemma_mod_bound(v + u, u);
    assert(v < m * u && 1 <= m <= 7) by (nonlinear_arith)
        requires
            v + u == u * m + (v + u) % u,
            0 <= (v + u) % u < u,
            0 < v <= 6 * u,
            u > 0,
    ;
    rounding::lemma_whole(m as nat);
    assert(x * y <= (m * u) * u) by (nonlinear_arith)
        requires
            y == 3 * u,
            3 * x < m * u,
            u > 0,
    ;
    rounding::lemma_product_side(f, sigma, three, number::whole(m as nat));
    rounding::lemma_order(t, number::whole(m as nat));
    assert(n <= m) by (nonlinear_arith)
        requires
            n * u <= m * u,
            u > 0,
    ;
    if n == m {
        rounding::lemma_whole(n as nat);
        rounding::lemma_order(number::whole(n as nat), t);
    }
}

proof fn lemma_weight<F: Fn(Op, Real, Real) -> Real>(f: F, sigma: Real, r: int, k: int)
    requires
        rounding::rounds(f),
        decays(f),
        ordinary(sigma),
        1 <= r <= 7,
        0 <= k <= 2 * r,
    ensures
        ({
            let b = depth::bell(f, sigma, r, k);
            &&& b.finite() && 0 <= b.quanta() <= rounding::unit()
            &&& k == r ==> b.quanta() == rounding::unit()
        }),
{
    rounding::lemma_constants();
    let u = rounding::unit();
    rounding::lemma_two(-10);
    rounding::lemma_two(1);
    rounding::lemma_two(13);
    rounding::lemma_two(26);
    rounding::lemma_two_product(13, 13);
    power2::lemma_pow2_adds(10, 139);
    power2::lemma_pow2_adds(13, 149);
    vstd::arithmetic::power2::lemma2_to64();
    let zero = Real { bits: ZERO };
    let n = if k < r {
        r - k
    } else {
        k - r
    };
    rounding::lemma_whole(n as nat);
    rounding::lemma_opposite(number::whole(n as nat));
    let d = if k < r {
        number::whole(n as nat).opposite()
    } else {
        number::whole(n as nat)
    };
    let s = sigma.quanta();
    let big = rounding::number_at(rounding::two(13));
    rounding::lemma_opposite(big);
    let (q, m) = (d.quanta(), rounding::two(13));
    assert(-(8 * u) <= q <= 8 * u) by (nonlinear_arith)
        requires
            q == n * u || q == -(n * u),
            0 <= n <= 7,
            u > 0,
    ;
    assert(q * u <= m * s && (-m) * s <= q * u) by (nonlinear_arith)
        requires
            -(8 * u) <= q <= 8 * u,
            m == 0x2000 * u,
            0x400 * s >= u,
            s > 0,
            u > 0,
    ;
    rounding::lemma_quotient_side(f, d, sigma, big);
    rounding::lemma_quotient_side(f, d, sigma, big.opposite());
    let x = number::over(f, d, sigma);
    assert(x.finite());
    rounding::lemma_order(x, big);
    rounding::lemma_order(big.opposite(), x);
    let half = Real { bits: depth::NEG_HALF };
    assert(half == (Real { bits: number::HALF }).opposite());
    rounding::lemma_opposite(Real { bits: number::HALF });
    let (p, g) = (x.quanta(), half.quanta());
    // half of x, on the other side
    assert(g * p <= m * u && (-m) * u <= g * p && (p >= 0 ==> g * p <= 0) && (p <= 0 ==> g * p >= 0))
        by (nonlinear_arith)
        requires
            -m <= p <= m,
            2 * g == -u,
            u > 0,
            m > 0,
    ;
    assert(0 * u == 0) by (nonlinear_arith);
    rounding::lemma_product_side(f, half, x, big);
    rounding::lemma_product_side(f, half, x, big.opposite());
    rounding::lemma_product_side(f, half, x, zero);
    let y = number::times(f, half, x);
    assert(y.finite());
    rounding::lemma_order(y, big);
    rounding::lemma_order(big.opposite(), y);
    rounding::lemma_order(y, zero);
    rounding::lemma_order(zero, y);
    let o = y.quanta();
    let huge = rounding::number_at(rounding::two(26));
    rounding::lemma_opposite(huge);
    let w = rounding::two(26);
    assert(o * p <= 0 && (-w) * u <= o * p) by (nonlinear_arith)
        requires
            -m <= p <= m,
            -m <= o <= m,
            p >= 0 ==> o <= 0,
            p <= 0 ==> o >= 0,
            m * m == w * u,
            m > 0,
    ;
    rounding::lemma_product_side(f, y, x, zero);
    rounding::lemma_product_side(f, y, x, huge.opposite());
    let e = number::times(f, y, x);
    assert(e.finite());
    rounding::lemma_order(e, zero);
    if k == r {
        rounding::lemma_nothing(f, d, sigma);
        rounding::lemma_nothing(f, x, half);
        rounding::lemma_nothing(f, x, y);
    }
    assert(depth::bell(f, sigma, r, k) == number::exp(f, e));
}

/// The weights of a kernel.
pub open spec fn weights(k: Seq<Real>) -> bool {
    &&& 3 <= k.len() <= 15
    &&& forall|i: int|
        0 <= i < k.len() ==> (#[trigger] k[i]).finite() && 0 <= k[i].quanta() <= rounding::unit()
    &&& exists|i: int| 0 <= i < k.len() && (#[trigger] k[i]).quanta() == rounding::unit()
}

proof fn lemma_kernel<F: Fn(Op, Real, Real) -> Real>(f: F, sigma: Real)
    requires
        rounding::rounds(f),
        decays(f),
        ordinary(sigma),
    ensures
        weights(depth::kernel_of(f, sigma)),
{
    lemma_reach(f, sigma);
    let r = depth::reach(f, sigma);
    let k = depth::kernel_of(f, sigma);
    assert forall|i: int| 0 <= i < k.len() implies (#[trigger] k[i]).finite() && 0 <= k[i].quanta()
        <= rounding::unit() by {
        lemma_weight(f, sigma, r, i);
    }
    lemma_weight(f, sigma, r, r);
    assert(k[r].quanta() == rounding::unit());
}

/// The samples are shares.
pub open spec fn shares(t: spec_fn(int) -> Real) -> bool {
    forall|i: int| (#[trigger] t(i)).finite() && 0 <= t(i).quanta() <= rounding::unit()
}

/// A weighted sum of shares stays between nothing and the sum of the weights,
/// and larger shares make no smaller sum.
proof fn lemma_sums<F: Fn(Op, Real, Real) -> Real>(
    f: F,
    k: Seq<Real>,
    s: spec_fn(int) -> Real,
    t: spec_fn(int) -> Real,
    n: nat,
)
    requires
        rounding::rounds(f),
        weights(k),
        shares(s),
        shares(t),
        forall|i: int| 0 <= i < k.len() ==> (#[trigger] s(i)).quanta() <= t(i).quanta(),
        n <= k.len(),
    ensures
        ({
            let (a, b) = (depth::weighted(f, k, s, n), depth::weighted(f, k, t, n));
            let c = depth::total_of(f, k, n);
            &&& a.finite() && b.finite() && c.finite()
            &&& 0 <= a.quanta() <= b.quanta() <= c.quanta() <= n * rounding::unit()
            &&& (forall|i: int| 0 <= i < k.len() ==> (#[trigger] s(i)).quanta() == 0) ==> a.quanta()
                == 0
            &&& (forall|i: int|
                0 <= i < k.len() ==> (#[trigger] s(i)).quanta() == rounding::unit()) ==> a.quanta()
                == c.quanta()
            &&& forall|i: int| 0 <= i < n ==> (#[trigger] k[i]).quanta() <= c.quanta()
        }),
    decreases n,
{
    rounding::lemma_constants();
    let u = rounding::unit();
    let (zero, one) = (Real { bits: ZERO }, Real { bits: ONE });
    if n > 0 {
        lemma_sums(f, k, s, t, (n - 1) as nat);
        let m = (n - 1) as nat;
        let (a, b, c) = (
            depth::weighted(f, k, s, m),
            depth::weighted(f, k, t, m),
            depth::total_of(f, k, m),
        );
        let (w, x, y) = (k[n - 1], s(n - 1), t(n - 1));
        assert(w.finite() && x.finite() && y.finite());
        let (p, q) = (number::times(f, w, x), number::times(f, w, y));
        let (i, j, l) = (w.quanta(), x.quanta(), y.quanta());
        assert(0 * u <= i * j <= i * l <= i * u) by (nonlinear_arith)
            requires
                0 <= i,
                0 <= j <= l <= u,
        ;
        rounding::lemma_product_side(f, w, x, zero);
        rounding::lemma_products(f, w, x, w, y);
        rounding::lemma_product_side(f, w, y, w);
        assert(p.finite() && q.finite());
        rounding::lemma_order(zero, p);
        rounding::lemma_order(p, q);
        rounding::lemma_order(q, w);
        rounding::lemma_sums(f, Op::Plus, a, p, Op::Plus, b, q);
        rounding::lemma_sums(f, Op::Plus, b, q, Op::Plus, c, w);
        rounding::lemma_sum_side(f, Op::Plus, a, p, zero);
        rounding::lemma_whole(n);
        let top = number::whole(n);
        assert(n * u == m * u + u) by (nonlinear_arith)
            requires
                n == m + 1,
        ;
        rounding::lemma_sum_side(f, Op::Plus, c, w, top);
        rounding::lemma_sum_side(f, Op::Plus, c, w, c);
        rounding::lemma_sum_side(f, Op::Plus, c, w, w);
        let (d, e, g) = (number::plus(f, a, p), number::plus(f, b, q), number::plus(f, c, w));
        assert(d.finite() && e.finite() && g.finite());
        rounding::lemma_order(zero, d);
        rounding::lemma_order(d, e);
        rounding::lemma_order(e, g);
        rounding::lemma_order(g, top);
        rounding::lemma_order(c, g);
        rounding::lemma_order(w, g);
        if forall|i: int| 0 <= i < k.len() ==> (#[trigger] s(i)).quanta() == 0 {
            assert(x.quanta() == 0);
            rounding::lemma_nothing(f, x, w);
            rounding::lemma_nothing(f, p, a);
        }
        if forall|i: int| 0 <= i < k.len() ==> (#[trigger] s(i)).quanta() == u {
            assert(x.quanta() == u);
            assert(i * u <= i * j) by (nonlinear_arith)
                requires
                    j == u,
            ;
            rounding::lemma_product_side(f, w, x, w);
            rounding::lemma_order(w, p);
            rounding::lemma_sums(f, Op::Plus, c, w, Op::Plus, a, p);
            rounding::lemma_order(g, d);
        }
        assert forall|i: int| 0 <= i < n implies (#[trigger] k[i]).quanta() <= g.quanta() by {
            if i < m {
                assert(k[i].quanta() <= c.quanta());
            }
        }
    } else {
        assert(0 * u == 0) by (nonlinear_arith);
    }
}

/// The samples of a picture are shares.
pub open spec fn shared(src: Seq<Real>) -> bool {
    forall|i: int|
        0 <= i < src.len() ==> (#[trigger] src[i]).finite() && 0 <= src[i].quanta()
            <= rounding::unit()
}

/// No sample of the first picture is above that of the second.
pub open spec fn darker(a: Seq<Real>, b: Seq<Real>) -> bool {
    a.len() == b.len() && forall|i: int|
        0 <= i < a.len() ==> (#[trigger] a[i]).quanta() <= b[i].quanta()
}

/// The whole picture is at one level.
pub open spec fn even(a: Seq<Real>, q: int) -> bool {
    forall|i: int| 0 <= i < a.len() ==> (#[trigger] a[i]).quanta() == q
}

proof fn lemma_pass<F: Fn(Op, Real, Real) -> Real>(
    f: F,
    a: Seq<Real>,
    b: Seq<Real>,
    w: int,
    h: int,
    k: Seq<Real>,
    down: bool,
)
    requires
        rounding::rounds(f),
        weights(k),
        w >= 1,
        h >= 1,
        a.len() == w * h,
        shared(a),
        shared(b),
        darker(a, b),
    ensures
        ({
            let (x, y) = (
                depth::blurred(f, a, w, h, k, down),
                depth::blurred(f, b, w, h, k, down),
            );
            &&& x.len() == a.len() && y.len() == b.len()
            &&& shared(x) && shared(y)
            &&& darker(x, y)
            &&& even(a, 0) ==> even(x, 0)
            &&& even(a, rounding::unit()) ==> even(x, rounding::unit())
        }),
{
    rounding::lemma_constants();
    let u = rounding::unit();
    let (x, y) = (depth::blurred(f, a, w, h, k, down), depth::blurred(f, b, w, h, k, down));
    let r = (k.len() as int - 1) / 2;
    let norm = depth::total_of(f, k, k.len());
    let (zero, one) = (Real { bits: ZERO }, Real { bits: ONE });
    assert forall|i: int| 0 <= i < a.len() implies (#[trigger] x[i]).finite() && 0 <= x[i].quanta()
        <= u && y[i].finite() && 0 <= y[i].quanta() <= u && x[i].quanta() <= y[i].quanta() && (even(
        a,
        0,
    ) ==> x[i].quanta() == 0) && (even(a, u) ==> x[i].quanta() == u) by {
        let (s, t) = (
            depth::taps_at(a, w, h, r, down, i),
            depth::taps_at(b, w, h, r, down, i),
        );
        grid::lemma_cell(w, h, i);
        assert forall|j: int| (#[trigger] s(j)).finite() && 0 <= s(j).quanta() <= u && t(j).finite()
            && 0 <= t(j).quanta() <= u && s(j).quanta() <= t(j).quanta() && (even(a, 0) ==> s(
            j,
        ).quanta() == 0) && (even(a, u) ==> s(j).quanta() == u) by {
            let p = if down {
                grid::pin(i / w + j - r, h) * w + i % w
            } else {
                (i / w) * w + grid::pin(i % w + j - r, w)
            };
            if down {
                grid::lemma_index(w, h, i % w, grid::pin(i / w + j - r, h));
            } else {
                grid::lemma_index(w, h, grid::pin(i % w + j - r, w), i / w);
            }
            assert(0 <= p < a.len());
            assert(s(j) == a[p] && t(j) == b[p]);
        }
        assert(shares(t)) by {
            assert forall|j: int| (#[trigger] t(j)).finite() && 0 <= t(j).quanta() <= u by {
                assert(s(j).finite());
            }
        }
        lemma_sums(f, k, s, t, k.len());
        let (m, n) = (depth::weighted(f, k, s, k.len()), depth::weighted(f, k, t, k.len()));
        let c = choose|c: int| 0 <= c < k.len() && (#[trigger] k[c]).quanta() == u;
        assert(k[c].quanta() <= norm.quanta());
        rounding::lemma_quotients(f, m, n, norm);
        let (p, q, z) = (m.quanta(), n.quanta(), norm.quanta());
        assert(0 * z <= p * u && q * u <= u * z && 0 * z <= q * u && p * u <= u * z)
            by (nonlinear_arith)
            requires
                0 <= p <= q <= z,
                u > 0,
        ;
        rounding::lemma_quotient_side(f, m, norm, zero);
        rounding::lemma_quotient_side(f, n, norm, one);
        rounding::lemma_quotient_side(f, n, norm, zero);
        rounding::lemma_quotient_side(f, m, norm, one);
        assert(x[i] == number::over(f, m, norm) && y[i] == number::over(f, n, norm));
        assert(x[i].finite() && y[i].finite());
        rounding::lemma_order(zero, x[i]);
        rounding::lemma_order(x[i], y[i]);
        rounding::lemma_order(y[i], one);
        rounding::lemma_order(x[i], one);
        rounding::lemma_order(zero, y[i]);
        if even(a, 0) {
            assert(p == 0);
            rounding::lemma_nothing(f, m, norm);
        }
        if even(a, u) {
            assert(p == z);
            assert(u * z <= p * u) by (nonlinear_arith)
                requires
                    p == z,
            ;
            rounding::lemma_order(one, x[i]);
        }
    }
    assert forall|i: int| 0 <= i < y.len() implies (#[trigger] y[i]).finite() && 0 <= y[i].quanta()
        <= u by {
        assert(x[i].finite());
    }
}

/// The blur keeps black black and white white, keeps every sample between them,
/// and never makes the brighter of two pictures the darker one.
pub proof fn law_blur_keeps_levels<F: Fn(Op, Real, Real) -> Real>(
    f: F,
    a: Seq<Real>,
    b: Seq<Real>,
    w: int,
    h: int,
    sigma: Real,
)
    requires
        rounding::rounds(f),
        decays(f),
        ordinary(sigma),
        w >= 1,
        h >= 1,
        a.len() == w * h,
        shared(a),
        shared(b),
        darker(a, b),
    ensures
        ({
            let (x, y) = (
                depth::gaussian_of(f, a, w, h, sigma),
                depth::gaussian_of(f, b, w, h, sigma),
            );
            &&& x.len() == a.len()
            &&& shared(x)
            &&& darker(x, y)
            &&& even(a, 0) ==> even(x, 0)
            &&& even(a, rounding::unit()) ==> even(x, rounding::unit())
        }),
{
    lemma_kernel(f, sigma);
    let k = depth::kernel_of(f, sigma);
    lemma_pass(f, a, b, w, h, k, false);
    lemma_pass(
        f,
        depth::blurred(f, a, w, h, k, false),
        depth::blurred(f, b, w, h, k, false),
        w,
        h,
        k,
        true,
    );
}

/// The blur reaches as far as its kernel does and no farther: two pictures that
/// agree that far around a pixel agree in it afterwards.
pub proof fn law_blur_is_local<F: Fn(Op, Real, Real) -> Real>(
    f: F,
    a: Seq<Real>,
    b: Seq<Real>,
    w: int,
    h: int,
    sigma: Real,
    k: int,
)
    requires
        rounding::rounds(f),
        ordinary(sigma),
        w >= 1,
        h >= 1,
        a.len() == w * h,
        b.len() == w * h,
        0 <= k < a.len(),
        forall|i: int, j: int|
            -reach_of(sigma) <= i <= reach_of(sigma) && -reach_of(sigma) <= j <= reach_of(sigma)
                ==> #[trigger] near(a, w, h, k, i, j) == near(b, w, h, k, i, j),
    ensures
        depth::gaussian_of(f, a, w, h, sigma)[k] == depth::gaussian_of(f, b, w, h, sigma)[k],
{
    lemma_reach(f, sigma);
    let r = depth::reach(f, sigma);
    let kernel = depth::kernel_of(f, sigma);
    assert((kernel.len() as int - 1) / 2 == r);
    grid::lemma_cell(w, h, k);
    let (p, q) = (
        depth::blurred(f, a, w, h, kernel, false),
        depth::blurred(f, b, w, h, kernel, false),
    );
    let (s, t) = (depth::taps_at(p, w, h, r, true, k), depth::taps_at(q, w, h, r, true, k));
    assert forall|n: int| 0 <= n < kernel.len() implies #[trigger] s(n) == t(n) by {
        let y = grid::pin(k / w + n - r, h);
        let m = y * w + k % w;
        grid::lemma_index(w, h, k % w, y);
        let (c, d) = (depth::taps_at(a, w, h, r, false, m), depth::taps_at(b, w, h, r, false, m));
        assert forall|o: int| 0 <= o < kernel.len() implies #[trigger] c(o) == d(o) by {
            assert(c(o) == near(a, w, h, k, o - r, n - r));
            assert(d(o) == near(b, w, h, k, o - r, n - r));
        }
        lemma_same(f, kernel, c, d, kernel.len());
        assert(s(n) == p[m] && t(n) == q[m]);
    }
    lemma_same(f, kernel, s, t, kernel.len());
}

/// Three deviations, rounded up.
pub open spec fn reach_of(sigma: Real) -> int {
    (3 * sigma.quanta() + rounding::unit()) / rounding::unit()
}

/// The same samples, the same sum.
proof fn lemma_same<F: Fn(Op, Real, Real) -> Real>(
    f: F,
    k: Seq<Real>,
    s: spec_fn(int) -> Real,
    t: spec_fn(int) -> Real,
    n: nat,
)
    requires
        n <= k.len(),
        forall|i: int| 0 <= i < k.len() ==> #[trigger] s(i) == t(i),
    ensures
        depth::weighted(f, k, s, n) == depth::weighted(f, k, t, n),
    decreases n,
{
    if n > 0 {
        lemma_same(f, k, s, t, (n - 1) as nat);
        assert(s(n - 1) == t(n - 1));
    }
}

} // verus!
