//! Binomial coefficients in 128 bits.

use vstd::arithmetic::div_mod::{lemma_fundamental_div_mod, lemma_fundamental_div_mod_converse};
use vstd::prelude::*;

use crate::counting::{
    lemma_sum_add, lemma_sum_ext, lemma_sum_single, lemma_sum_split, shifted_term, sum_to,
};

verus! {

/// The binomial coefficient, by Pascal's rule.
pub open spec fn binom(n: int, k: int) -> int
    decreases n,
{
    if k < 0 || n < 0 {
        0
    } else if k == 0 {
        1
    } else if n == 0 {
        0
    } else {
        binom(n - 1, k - 1) + binom(n - 1, k)
    }
}

/// Binomial coefficients are not negative; they vanish above the diagonal and
/// are positive on and below it.
pub proof fn lemma_binom_bounds(n: int, k: int)
    ensures
        binom(n, k) >= 0,
        k > n ==> binom(n, k) == 0,
        0 <= k <= n ==> binom(n, k) >= 1,
    decreases n,
{
    if n > 0 && k > 0 {
        lemma_binom_bounds(n - 1, k - 1);
        lemma_binom_bounds(n - 1, k);
    }
}

/// The diagonal: there is one way to take everything.
proof fn lemma_binom_diagonal(n: int)
    requires
        0 <= n,
    ensures
        binom(n, n) == 1,
    decreases n,
{
    if n > 0 {
        lemma_binom_diagonal(n - 1);
        lemma_binom_bounds(n - 1, n);
    }
}

/// Choosing `k` of `n` is leaving out `n - k` of them.
pub proof fn lemma_binom_symmetric(n: int, k: int)
    requires
        0 <= k <= n,
    ensures
        binom(n, k) == binom(n, n - k),
    decreases n,
{
    if k == 0 || k == n {
        lemma_binom_diagonal(n);
    } else {
        lemma_binom_symmetric(n - 1, k - 1);
        lemma_binom_symmetric(n - 1, k);
    }
}

/// Stepping along a row: `(k + 1) * C(n, k + 1) == (n - k) * C(n, k)`.
pub proof fn lemma_binom_step(n: int, k: int)
    requires
        0 <= k <= n,
    ensures
        (k + 1) * binom(n, k + 1) == (n - k) * binom(n, k),
    decreases n,
{
    if k == n {
        lemma_binom_bounds(n, k + 1);
        let z = binom(n, k + 1);
        let c = binom(n, k);
        assert((k + 1) * z == (n - k) * c) by (nonlinear_arith)
            requires
                z == 0,
                k == n,
        ;
    } else {
        let c = binom(n - 1, k);
        lemma_binom_step(n - 1, k);
        if k == 0 {
            let u = binom(n - 1, 1);
            let t = binom(n, 1);
            let d = binom(n, 0);
            assert(t == c + u);
            assert((k + 1) * t == (n - k) * d) by (nonlinear_arith)
                requires
                    k == 0,
                    c == 1,
                    d == 1,
                    t == c + u,
                    (k + 1) * u == (n - 1 - k) * c,
            ;
        } else {
            lemma_binom_step(n - 1, k - 1);
            let u = binom(n - 1, k + 1);
            let w = binom(n - 1, k - 1);
            assert((k + 1) * (c + u) == n * c) by (nonlinear_arith)
                requires
                    (k + 1) * u == (n - 1 - k) * c,
            ;
            assert((n - k) * (w + c) == n * c) by (nonlinear_arith)
                requires
                    k * c == (n - k) * w,
            ;
        }
    }
}

/// Absorption: `k * C(n, k) == n * C(n - 1, k - 1)`.
pub proof fn lemma_binom_absorb(n: int, k: int)
    requires
        1 <= k <= n,
    ensures
        k * binom(n, k) == n * binom(n - 1, k - 1),
{
    lemma_binom_step(n - 1, k - 1);
    let x = binom(n - 1, k - 1);
    let y = binom(n - 1, k);
    assert(binom(n, k) == x + y);
    assert(k * (x + y) == n * x) by (nonlinear_arith)
        requires
            k * y == (n - k) * x,
    ;
}

/// Rows rise up to their middle.
pub proof fn lemma_binom_rises(n: int, i: int, j: int)
    requires
        0 <= i <= j,
        2 * j <= n,
    ensures
        binom(n, i) <= binom(n, j),
    decreases j - i,
{
    if i < j {
        lemma_binom_rises(n, i, j - 1);
        lemma_binom_step(n, j - 1);
        let a = binom(n, j - 1);
        let b = binom(n, j);
        lemma_binom_bounds(n, j - 1);
        assert(a <= b) by (nonlinear_arith)
            requires
                j * b == (n - (j - 1)) * a,
                a >= 0,
                2 * j <= n,
                j > 0,
        ;
    }
}

/// The products that Vandermonde's identity sums.
pub open spec fn vandermonde_term(m: int, n: int, r: int) -> spec_fn(int) -> int {
    |o: int| binom(m, o) * binom(n, r - o)
}

/// Vandermonde's identity: splitting `m + n` things in two and choosing `o`
/// from the first part and the rest from the second accounts for every choice.
pub proof fn lemma_vandermonde(m: int, n: int, r: int)
    requires
        0 <= m,
        0 <= n,
        0 <= r,
    ensures
        sum_to(r + 1, vandermonde_term(m, n, r)) == binom(m + n, r),
    decreases m,
{
    let f = vandermonde_term(m, n, r);
    if m == 0 {
        assert forall|o: int| 1 <= o < r + 1 implies #[trigger] f(o) == 0 by {
            assert(binom(0, o) == 0);
            assert(0 * binom(n, r - o) == 0);
        }
        assert(f(0) == binom(n, r)) by {
            assert(binom(0, 0) == 1);
            assert(1 * binom(n, r) == binom(n, r));
        }
        lemma_sum_single(r + 1, f, 0);
    } else {
        let g = vandermonde_term(m - 1, n, r);
        lemma_vandermonde(m - 1, n, r);
        // The terms that take the first thing, as a function of `o`.
        let h = |o: int| binom(m - 1, o - 1) * binom(n, r - o);
        assert forall|o: int| 0 <= o < r + 1 implies #[trigger] f(o) == g(o) + h(o) by {
            let b = binom(n, r - o);
            if o == 0 {
                assert(binom(m, 0) == 1 && binom(m - 1, 0) == 1 && binom(m - 1, -1) == 0);
                assert(0 * b == 0);
            } else {
                let x = binom(m - 1, o - 1);
                let y = binom(m - 1, o);
                assert((x + y) * b == y * b + x * b) by (nonlinear_arith);
            }
        }
        lemma_sum_add(r + 1, g, h, f);
        lemma_sum_split(1, r, h);
        assert(sum_to(1, h) == sum_to(0, h) + h(0));
        assert(h(0) == 0) by {
            assert(binom(m - 1, -1) == 0);
            assert(0 * binom(n, r) == 0);
        }
        if r == 0 {
            assert(sum_to(0, shifted_term(h, 1)) == 0);
            assert(binom(m + n, 0) == 1 && binom(m - 1 + n, 0) == 1);
        } else {
            lemma_vandermonde(m - 1, n, r - 1);
            let v = vandermonde_term(m - 1, n, r - 1);
            assert forall|o: int| 0 <= o < r implies #[trigger] shifted_term(h, 1)(o) == v(o) by {}
            lemma_sum_ext(r, shifted_term(h, 1), v);
            assert(binom(m + n, r) == binom(m + n - 1, r - 1) + binom(m + n - 1, r));
        }
    }
}

/// Euclid's algorithm.
pub open spec fn gcd_spec(a: int, b: int) -> int
    decreases b,
{
    if b <= 0 {
        a
    } else {
        gcd_spec(b, a % b)
    }
}

/// The greatest common divisor divides both numbers and is an integer
/// combination of them.
proof fn lemma_gcd(a: int, b: int) -> (xy: (int, int))
    requires
        0 <= a,
        0 <= b,
        0 < a + b,
    ensures
        0 < gcd_spec(a, b),
        a % gcd_spec(a, b) == 0,
        b % gcd_spec(a, b) == 0,
        xy.0 * a + xy.1 * b == gcd_spec(a, b),
    decreases b,
{
    if b == 0 {
        lemma_fundamental_div_mod_converse(a, a, 1, 0);
        assert(0int % a == 0);
        assert(1 * a + 0 * b == a);
        (1, 0)
    } else {
        let g = gcd_spec(b, a % b);
        let (x, y) = lemma_gcd(b, a % b);
        let q = a / b;
        lemma_fundamental_div_mod(a, b);
        let r = a % b;
        lemma_fundamental_div_mod(b, g);
        lemma_fundamental_div_mod(r, g);
        let bq = b / g;
        let rq = r / g;
        assert(a == g * (bq * q + rq)) by (nonlinear_arith)
            requires
                a == b * q + r,
                b == g * bq,
                r == g * rq,
        ;
        assert(g * (bq * q + rq) == (bq * q + rq) * g) by (nonlinear_arith);
        lemma_fundamental_div_mod_converse(a, g, bq * q + rq, 0);
        assert(y * a + (x - y * q) * b == g) by (nonlinear_arith)
            requires
                x * b + y * r == g,
                a == b * q + r,
        ;
        (y, x - y * q)
    }
}

/// Greatest common divisor.
fn gcd(a: u128, b: u128) -> (g: u128)
    ensures
        g == gcd_spec(a as int, b as int),
{
    let mut x: u128 = a;
    let mut y: u128 = b;
    while y != 0
        invariant
            gcd_spec(x as int, y as int) == gcd_spec(a as int, b as int),
        decreases y,
    {
        let t: u128 = x % y;
        x = y;
        y = t;
    }
    x
}

/// Cancelling the common factor keeps the division exact: if `acc * num` is
/// `next * den`, then `den / g` divides `acc` and the quotient times `num / g`
/// is `next`.
proof fn lemma_cancelled_step(acc: int, num: int, den: int, next: int)
    requires
        0 <= acc,
        0 < num,
        0 < den,
        acc * num == next * den,
    ensures
        0 < gcd_spec(num, den),
        0 < den / gcd_spec(num, den),
        (acc / (den / gcd_spec(num, den))) * (num / gcd_spec(num, den)) == next,
{
    let (x, y) = lemma_gcd(num, den);
    let g = gcd_spec(num, den);
    lemma_fundamental_div_mod(num, g);
    lemma_fundamental_div_mod(den, g);
    let p = num / g;
    let d = den / g;
    assert(d > 0) by (nonlinear_arith)
        requires
            den == g * d,
            den > 0,
            g > 0,
    ;
    assert(x * p + y * d == 1) by (nonlinear_arith)
        requires
            x * num + y * den == g,
            num == g * p,
            den == g * d,
            g > 0,
    ;
    assert(acc * p == next * d) by (nonlinear_arith)
        requires
            acc * num == next * den,
            num == g * p,
            den == g * d,
            g > 0,
    ;
    let q = x * next + y * acc;
    assert(acc == q * d) by (nonlinear_arith)
        requires
            x * p + y * d == 1,
            acc * p == next * d,
            q == x * next + y * acc,
    ;
    lemma_fundamental_div_mod_converse(acc, d, q, 0);
    assert(q * p == next) by (nonlinear_arith)
        requires
            acc == q * d,
            acc * p == next * d,
            d > 0,
    ;
}

/// The binomial coefficient, or `None` when it does not fit 128 bits.
pub fn checked_binomial(n: usize, k: usize) -> (r: Option<u128>)
    ensures
        match r {
            Some(c) => c == binom(n as int, k as int),
            None => binom(n as int, k as int) > u128::MAX,
        },
{
    if k > n {
        proof {
            lemma_binom_bounds(n as int, k as int);
        }
        return Some(0);
    }
    let m: usize = if k <= n - k {
        k
    } else {
        n - k
    };
    proof {
        lemma_binom_symmetric(n as int, k as int);
    }
    let mut acc: u128 = 1;
    let mut i: usize = 0;
    while i < m
        invariant
            i <= m,
            2 * m <= n,
            k <= n,
            binom(n as int, m as int) == binom(n as int, k as int),
            acc == binom(n as int, i as int),
        decreases m - i,
    {
        let num: u128 = (n - i) as u128;
        let den: u128 = (i + 1) as u128;
        let g: u128 = gcd(num, den);
        proof {
            lemma_binom_step(n as int, i as int);
            let next = binom(n as int, i + 1);
            assert(acc * num == num * acc) by (nonlinear_arith);
            assert(next * den == den * next) by (nonlinear_arith);
            lemma_cancelled_step(acc as int, num as int, den as int, next);
            lemma_binom_rises(n as int, i + 1, m as int);
        }
        match (acc / (den / g)).checked_mul(num / g) {
            Some(c) => {
                acc = c;
            },
            None => {
                return None;
            },
        }
        i = i + 1;
    }
    Some(acc)
}

/// The binomial coefficient `C(n, k)`; zero when `k > n`.
pub fn binomial(n: usize, k: usize) -> (c: u128)
    requires
        binom(n as int, k as int) <= u128::MAX,
    ensures
        c == binom(n as int, k as int),
{
    match checked_binomial(n, k) {
        Some(c) => c,
        None => 0,
    }
}

} // verus!
