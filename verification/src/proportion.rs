//! Gcd-scaled ratios and count-plan enumeration.

use vstd::prelude::*;
use vstd::arithmetic::div_mod::{lemma_fundamental_div_mod, lemma_mod_multiples_basic};

verus! {

/// Absolute value of an integer.
pub open spec fn abs_int(a: int) -> nat {
    if a < 0 { (-a) as nat } else { a as nat }
}

/// Euclid's greatest common divisor on natural numbers (`gcd(0, 0) == 0`).
pub open spec fn spec_gcd(a: nat, b: nat) -> nat
    decreases b,
{
    if b == 0 { a } else { spec_gcd(b, a % b) }
}

/// `c` divides `x` (for a positive `c`).
pub open spec fn divides(c: int, x: int) -> bool {
    c > 0 && x % c == 0
}

proof fn lemma_divides_combination(c: int, x: int, y: int, q: int)
    requires
        divides(c, x),
        divides(c, y),
    ensures
        divides(c, q * x + y),
        divides(c, y - q * x),
{
    lemma_fundamental_div_mod(x, c);
    lemma_fundamental_div_mod(y, c);
    let kx = x / c;
    let ky = y / c;
    assert(q * x + y == (q * kx + ky) * c) by (nonlinear_arith)
        requires
            x == c * kx,
            y == c * ky,
    ;
    assert(y - q * x == (ky - q * kx) * c) by (nonlinear_arith)
        requires
            x == c * kx,
            y == c * ky,
    ;
    lemma_mod_multiples_basic(q * kx + ky, c);
    lemma_mod_multiples_basic(ky - q * kx, c);
}

/// The gcd divides both arguments, and is positive unless both are zero.
pub proof fn lemma_gcd_divides(a: nat, b: nat)
    ensures
        (a > 0 || b > 0) ==> spec_gcd(a, b) > 0,
        spec_gcd(a, b) > 0 ==> divides(spec_gcd(a, b) as int, a as int) && divides(
            spec_gcd(a, b) as int,
            b as int,
        ),
        spec_gcd(a, b) <= if a > b { a } else { b },
    decreases b,
{
    if b == 0 {
        if a > 0 {
            lemma_mod_multiples_basic(1, a as int);
            lemma_mod_multiples_basic(0, a as int);
        }
    } else {
        let r = a % b;
        lemma_gcd_divides(b, r);
        let g = spec_gcd(b, r);
        lemma_fundamental_div_mod(a as int, b as int);
        assert(a as int == (a / b) * b + r) by (nonlinear_arith)
            requires
                a as int == b * (a / b) + r,
        ;
        lemma_divides_combination(g as int, b as int, r as int, (a / b) as int);
    }
}

/// Every common divisor of the arguments divides the gcd.
pub proof fn lemma_gcd_greatest(a: nat, b: nat, c: int)
    requires
        divides(c, a as int),
        divides(c, b as int),
    ensures
        divides(c, spec_gcd(a, b) as int),
    decreases b,
{
    if b > 0 {
        let r = a % b;
        lemma_fundamental_div_mod(a as int, b as int);
        assert(r == a - (a / b) * b) by (nonlinear_arith)
            requires
                a as int == b * (a / b) + r,
        ;
        lemma_divides_combination(c, b as int, a as int, (a / b) as int);
        lemma_gcd_greatest(b, r, c);
    }
}

/// Greatest common divisor of the absolute values of two integers (both zero => 0).
pub fn gcd(a: i32, b: i32) -> (r: i32)
    requires
        a != i32::MIN,
        b != i32::MIN,
    ensures
        r == spec_gcd(abs_int(a as int), abs_int(b as int)),
{
    let mut x: i32 = if a < 0 { -a } else { a };
    let mut y: i32 = if b < 0 { -b } else { b };
    while y != 0
        invariant
            0 <= x,
            0 <= y,
            spec_gcd(x as nat, y as nat) == spec_gcd(abs_int(a as int), abs_int(b as int)),
        decreases y,
    {
        let t = y;
        y = x % y;
        x = t;
    }
    x
}

/// The running gcd of `s[0..n]`, a fold seeded with `s[0]`.
pub open spec fn gcd_upto(s: Seq<i32>, n: int) -> int
    decreases n,
{
    if n <= 0 {
        s[0] as int
    } else {
        spec_gcd(abs_int(gcd_upto(s, n - 1)), abs_int(s[n - 1] as int)) as int
    }
}

/// The gcd of all values (0 for none).
pub open spec fn spec_gcd_many(s: Seq<i32>) -> int {
    if s.len() == 0 {
        0
    } else {
        gcd_upto(s, s.len() as int)
    }
}

pub proof fn lemma_gcd_upto_bounds(s: Seq<i32>, n: int)
    requires
        0 < n <= s.len(),
        forall|i: int| 0 <= i < s.len() ==> #[trigger] s[i] != i32::MIN,
    ensures
        0 <= gcd_upto(s, n) <= i32::MAX,
    decreases n,
{
    if n > 1 {
        lemma_gcd_upto_bounds(s, n - 1);
    }
    lemma_gcd_divides(abs_int(gcd_upto(s, n - 1)), abs_int(s[n - 1] as int));
}

/// GCD of the values (0 for an empty slice).
pub fn gcd_many(values: &[i32]) -> (g: i32)
    requires
        forall|i: int| 0 <= i < values@.len() ==> #[trigger] values@[i] != i32::MIN,
    ensures
        g == spec_gcd_many(values@),
{
    if values.len() == 0 {
        return 0;
    }
    let mut acc: i32 = values[0];
    let mut i: usize = 0;
    while i < values.len()
        invariant
            0 <= i <= values@.len(),
            values@.len() > 0,
            forall|j: int| 0 <= j < values@.len() ==> #[trigger] values@[j] != i32::MIN,
            acc == gcd_upto(values@, i as int),
        decreases values@.len() - i,
    {
        proof {
            if i > 0 {
                lemma_gcd_upto_bounds(values@, i as int);
            }
        }
        acc = gcd(acc, values[i]);
        i += 1;
    }
    acc
}

/// The running gcd divides every value seen, and every common divisor divides it.
pub proof fn lemma_gcd_upto_props(s: Seq<i32>, n: int, c: int)
    requires
        0 < n <= s.len(),
        forall|i: int| 0 <= i < s.len() ==> #[trigger] s[i] > 0,
    ensures
        gcd_upto(s, n) > 0,
        forall|i: int| 0 <= i < n ==> divides(gcd_upto(s, n), #[trigger] s[i] as int),
        (forall|i: int| 0 <= i < n ==> divides(c, #[trigger] s[i] as int)) ==> divides(
            c,
            gcd_upto(s, n),
        ),
    decreases n,
{
    let prev = gcd_upto(s, n - 1);
    let x = s[n - 1] as int;
    if n > 1 {
        lemma_gcd_upto_props(s, n - 1, c);
    }
    lemma_gcd_divides(abs_int(prev), abs_int(x));
    let g = gcd_upto(s, n);
    assert(prev > 0);
    assert forall|i: int| 0 <= i < n implies divides(g, #[trigger] s[i] as int) by {
        if i < n - 1 {
            // g divides prev, and prev divides s[i]
            let kp = prev / g;
            let ki = (s[i] as int) / prev;
            lemma_fundamental_div_mod(prev, g);
            lemma_fundamental_div_mod(s[i] as int, prev);
            assert(s[i] as int == (ki * kp) * g) by (nonlinear_arith)
                requires
                    prev == g * kp,
                    s[i] as int == prev * ki,
            ;
            lemma_mod_multiples_basic(ki * kp, g);
        } else if n == 1 {
        }
    }
    if forall|i: int| 0 <= i < n ==> divides(c, #[trigger] s[i] as int) {
        if n > 1 {
            assert(divides(c, prev));
        } else {
            assert(divides(c, s[0] as int));
        }
        lemma_gcd_greatest(abs_int(prev), abs_int(x), c);
    }
}

/// Why a proportion computation was refused.
#[derive(Debug, Clone, Copy, PartialEq, Eq, Structural)]
pub enum ProportionError {
    EmptyTargets,
    InvalidTarget,
    InvalidK,
}

impl ProportionError {
    /// The error's description.
    pub fn message(&self) -> (m: &'static str)
        ensures
            m@ == (match self {
                ProportionError::EmptyTargets => "targets must be non-empty"@,
                ProportionError::InvalidTarget => "each target must be a positive integer"@,
                ProportionError::InvalidK => "k must be a positive integer"@,
            }),
    {
        match self {
            ProportionError::EmptyTargets => "targets must be non-empty",
            ProportionError::InvalidTarget => "each target must be a positive integer",
            ProportionError::InvalidK => "k must be a positive integer",
        }
    }
}

/// `d = gcd(T_1, …, T_n)` and the primitive ratio `p_i = T_i / d`.
#[derive(Debug, Clone, PartialEq, Eq)]
pub struct ProportionPattern {
    pub d: i32,
    pub p: Vec<i32>,
}

pub open spec fn all_positive(s: Seq<i32>) -> bool {
    forall|i: int| 0 <= i < s.len() ==> #[trigger] s[i] > 0
}

/// Each value divided by `d`.
pub open spec fn divided(s: Seq<i32>, d: int) -> Seq<i32> {
    s.map_values(|t: i32| (t as int / d) as i32)
}

pub fn compute_proportion_pattern(targets: &[i32]) -> (r: Result<ProportionPattern, ProportionError>)
    ensures
        targets@.len() == 0 ==> r == Err::<ProportionPattern, ProportionError>(
            ProportionError::EmptyTargets,
        ),
        targets@.len() > 0 && !all_positive(targets@) ==> r == Err::<
            ProportionPattern,
            ProportionError,
        >(ProportionError::InvalidTarget),
        targets@.len() > 0 && all_positive(targets@) ==> (r matches Ok(pat) && pat.d
            == spec_gcd_many(targets@) && pat.p@ == divided(targets@, pat.d as int)),
{
    if targets.len() == 0 {
        return Err(ProportionError::EmptyTargets);
    }
    let mut i: usize = 0;
    while i < targets.len()
        invariant
            0 <= i <= targets@.len(),
            forall|j: int| 0 <= j < i ==> #[trigger] targets@[j] > 0,
        decreases targets@.len() - i,
    {
        if targets[i] <= 0 {
            return Err(ProportionError::InvalidTarget);
        }
        i += 1;
    }
    let d = gcd_many(targets);
    proof {
        lemma_gcd_upto_props(targets@, targets@.len() as int, 1);
    }
    let mut p: Vec<i32> = Vec::new();
    let mut j: usize = 0;
    while j < targets.len()
        invariant
            0 <= j <= targets@.len(),
            d > 0,
            all_positive(targets@),
            p@ == divided(targets@.take(j as int), d as int),
        decreases targets@.len() - j,
    {
        p.push(targets[j] / d);
        assert(divided(targets@.take(j + 1), d as int) =~= divided(targets@.take(j as int), d as int).push(
            (targets@[j as int] / d) as i32,
        ));
        j += 1;
    }
    assert(targets@.take(targets@.len() as int) =~= targets@);
    Ok(ProportionPattern { d, p })
}

/// The pattern gives back the targets and is primitive: `d > 0`, `d * p_i == T_i` for
/// every target, and the ratio `p` has gcd 1.
pub proof fn pattern_is_primitive(targets: Seq<i32>)
    requires
        targets.len() > 0,
        all_positive(targets),
    ensures
        spec_gcd_many(targets) > 0,
        forall|i: int|
            0 <= i < targets.len() ==> spec_gcd_many(targets) * #[trigger] divided(
                targets,
                spec_gcd_many(targets),
            )[i] == targets[i],
        spec_gcd_many(divided(targets, spec_gcd_many(targets))) == 1,
        all_positive(divided(targets, spec_gcd_many(targets))),
{
    let n = targets.len() as int;
    let g = spec_gcd_many(targets);
    lemma_gcd_upto_props(targets, n, 1);
    let p = divided(targets, g);
    assert forall|i: int| 0 <= i < n implies g * p[i] == targets[i] && #[trigger] p[i] > 0 by {
        let ti = targets[i] as int;
        assert(divides(g, ti));
        lemma_fundamental_div_mod(ti, g);
        assert(0 < ti / g <= ti) by (nonlinear_arith)
            requires
                ti == g * (ti / g),
                g > 0,
                ti > 0,
        ;
        assert(p[i] == ti / g);
    }
    let h = gcd_upto(p, n);
    lemma_gcd_upto_props(p, n, 1);
    assert(h > 0);
    assert forall|i: int| 0 <= i < n implies divides(g * h, #[trigger] targets[i] as int) by {
        let pi = p[i] as int;
        assert(divides(h, pi));
        lemma_fundamental_div_mod(pi, h);
        let m = pi / h;
        assert(targets[i] == (g * h) * m && g * h > 0) by (nonlinear_arith)
            requires
                targets[i] == g * pi,
                pi == h * m,
                g > 0,
                h > 0,
        ;
        lemma_mod_multiples_basic(m, g * h);
    }
    lemma_gcd_upto_props(targets, n, g * h);
    assert(divides(g * h, g));
    lemma_fundamental_div_mod(g, g * h);
    let q = g / (g * h);
    assert(h * q == 1) by (nonlinear_arith)
        requires
            g == (g * h) * q,
            g > 0,
    ;
    assert(h == 1) by (nonlinear_arith)
        requires
            h * q == 1,
            h > 0,
    ;
}

/// Per-page counts `c_i = k * p_i`.
pub open spec fn scaled(p: Seq<i32>, k: int) -> Seq<i32> {
    p.map_values(|pi: i32| (k * pi) as i32)
}

pub open spec fn scaled_fits(p: Seq<i32>, k: int) -> bool {
    forall|i: int| 0 <= i < p.len() ==> i32::MIN <= #[trigger] (k * p[i]) <= i32::MAX
}

/// Per-page counts `c_i = k * p_i`; `k` must be at least 1.
pub fn counts_for_k(pattern: &ProportionPattern, k: i32) -> (r: Result<Vec<i32>, ProportionError>)
    requires
        k >= 1 ==> scaled_fits(pattern.p@, k as int),
    ensures
        k < 1 ==> r == Err::<Vec<i32>, ProportionError>(ProportionError::InvalidK),
        k >= 1 ==> (r matches Ok(c) && c@ == scaled(pattern.p@, k as int)),
{
    if k < 1 {
        return Err(ProportionError::InvalidK);
    }
    let mut c: Vec<i32> = Vec::new();
    let mut i: usize = 0;
    while i < pattern.p.len()
        invariant
            0 <= i <= pattern.p@.len(),
            k >= 1,
            scaled_fits(pattern.p@, k as int),
            c@ == scaled(pattern.p@.take(i as int), k as int),
        decreases pattern.p@.len() - i,
    {
        assert(i32::MIN <= k * pattern.p@[i as int] <= i32::MAX);
        c.push(k * pattern.p[i]);
        assert(scaled(pattern.p@.take(i + 1), k as int) =~= scaled(pattern.p@.take(i as int), k as int).push(
            (k * pattern.p@[i as int]) as i32,
        ));
        i += 1;
    }
    assert(pattern.p@.take(pattern.p@.len() as int) =~= pattern.p@);
    Ok(c)
}

/// `ceil(n / d)` for positive `n` and `d`.
pub open spec fn ceil_div(n: int, d: int) -> int {
    (n + d - 1) / d
}

/// Ceiling division of positive integers.
pub fn ceil_div_pos(numer: i32, denom: i32) -> (r: i32)
    requires
        numer > 0,
        denom > 0,
        numer + denom - 1 <= i32::MAX,
    ensures
        r == ceil_div(numer as int, denom as int),
{
    ((numer - 1) + denom) / denom
}

/// The ceiling division is the least multiplier that covers the numerator.
pub proof fn lemma_ceil_div(n: int, d: int)
    requires
        n > 0,
        d > 0,
    ensures
        ceil_div(n, d) * d >= n,
        (ceil_div(n, d) - 1) * d < n,
        ceil_div(n, d) >= 1,
{
    let c = ceil_div(n, d);
    lemma_fundamental_div_mod(n + d - 1, d);
    let r = (n + d - 1) % d;
    assert(0 <= r < d);
    assert(c * d >= n && (c - 1) * d < n) by (nonlinear_arith)
        requires
            n + d - 1 == d * c + r,
            0 <= r < d,
            d > 0,
    ;
    if c < 1 {
        assert(c * d <= 0) by (nonlinear_arith)
            requires
                c < 1,
                d > 0,
        ;
    }
}

/// A larger denominator never needs more pages.
pub proof fn lemma_ceil_div_antitone(n: int, d1: int, d2: int)
    requires
        n > 0,
        0 < d1 <= d2,
    ensures
        ceil_div(n, d2) <= ceil_div(n, d1),
{
    lemma_ceil_div(n, d1);
    lemma_ceil_div(n, d2);
    let c1 = ceil_div(n, d1);
    let c2 = ceil_div(n, d2);
    assert(c2 <= c1) by (nonlinear_arith)
        requires
            c1 * d1 >= n,
            (c2 - 1) * d2 < n,
            0 < d1 <= d2,
            c1 >= 1,
    ;
}

/// `max(0, max_{i < n} ceil(t_i / c_i))`.
pub open spec fn max_pages(t: Seq<i32>, c: Seq<i32>, n: int) -> int
    decreases n,
{
    if n <= 0 {
        0
    } else {
        let prev = max_pages(t, c, n - 1);
        let here = ceil_div(t[n - 1] as int, c[n - 1] as int);
        if here > prev {
            here
        } else {
            prev
        }
    }
}

/// `max_pages` is the fewest sheets that meet every target: each `c_i * P >= t_i`, and
/// with one sheet less some target is missed.
pub proof fn pages_cover_targets(t: Seq<i32>, c: Seq<i32>)
    requires
        c.len() >= t.len(),
        forall|i: int| 0 <= i < t.len() ==> #[trigger] t[i] > 0 && c[i] > 0,
    ensures
        forall|i: int|
            0 <= i < t.len() ==> #[trigger] c[i] * max_pages(t, c, t.len() as int) >= t[i],
        t.len() > 0 ==> exists|i: int|
            0 <= i < t.len() && #[trigger] c[i] * (max_pages(t, c, t.len() as int) - 1) < t[i],
{
    lemma_max_pages_cover(t, c, t.len() as int);
}

proof fn lemma_max_pages_cover(t: Seq<i32>, c: Seq<i32>, n: int)
    requires
        0 <= n <= t.len(),
        c.len() >= t.len(),
        forall|i: int| 0 <= i < t.len() ==> #[trigger] t[i] > 0 && c[i] > 0,
    ensures
        max_pages(t, c, n) >= 0,
        forall|i: int| 0 <= i < n ==> #[trigger] c[i] * max_pages(t, c, n) >= t[i],
        n > 0 ==> exists|i: int| 0 <= i < n && #[trigger] c[i] * (max_pages(t, c, n) - 1) < t[i],
        n > 0 ==> exists|i: int| 0 <= i < n && max_pages(t, c, n) == ceil_div(t[i] as int, #[trigger] c[i] as int),
    decreases n,
{
    if n > 0 {
        lemma_max_pages_cover(t, c, n - 1);
        let m = max_pages(t, c, n);
        let prev = max_pages(t, c, n - 1);
        let ti = t[n - 1] as int;
        let ci = c[n - 1] as int;
        lemma_ceil_div(ti, ci);
        assert forall|i: int| 0 <= i < n implies #[trigger] c[i] * m >= t[i] by {
            let cc = c[i] as int;
            if i < n - 1 {
                assert(cc * prev >= t[i]);
                assert(cc * m >= t[i]) by (nonlinear_arith)
                    requires
                        m >= prev,
                        cc > 0,
                        cc * prev >= t[i],
                ;
            } else {
                let q = ceil_div(ti, ci);
                assert(cc * m >= t[i]) by (nonlinear_arith)
                    requires
                        m >= q,
                        cc > 0,
                        cc == ci,
                        ti == t[i],
                        q * ci >= ti,
                ;
            }
        }
        if ceil_div(ti, ci) > prev {
            assert(c[n - 1] * (m - 1) < t[n - 1]);
            assert(m == ceil_div(t[n - 1] as int, c[n - 1] as int));
        } else if n > 1 {
            let i = choose|i: int| 0 <= i < n - 1 && prev == ceil_div(t[i] as int, #[trigger] c[i] as int);
            lemma_ceil_div(t[i] as int, c[i] as int);
            assert(c[i] * (m - 1) < t[i]);
        } else {
            assert(prev == 0);
            assert(ceil_div(ti, ci) >= 1);
        }
    }
}

/// More copies per sheet never need more sheets: `P(k)` does not increase with `k`.
pub proof fn pages_antitone_in_k(t: Seq<i32>, p: Seq<i32>, k1: int, k2: int)
    requires
        1 <= k1 <= k2,
        p.len() >= t.len(),
        forall|i: int| 0 <= i < t.len() ==> #[trigger] t[i] > 0 && p[i] > 0,
        scaled_fits(p, k2),
    ensures
        max_pages(t, scaled(p, k2), t.len() as int) <= max_pages(t, scaled(p, k1), t.len() as int),
{
    lemma_pages_antitone(t, p, k1, k2, t.len() as int);
}

proof fn lemma_pages_antitone(t: Seq<i32>, p: Seq<i32>, k1: int, k2: int, n: int)
    requires
        1 <= k1 <= k2,
        0 <= n <= t.len(),
        p.len() >= t.len(),
        forall|i: int| 0 <= i < t.len() ==> #[trigger] t[i] > 0 && p[i] > 0,
        scaled_fits(p, k2),
    ensures
        max_pages(t, scaled(p, k2), n) <= max_pages(t, scaled(p, k1), n),
    decreases n,
{
    if n > 0 {
        lemma_pages_antitone(t, p, k1, k2, n - 1);
        assert(t[n - 1] > 0);
        let pi = p[n - 1] as int;
        assert(k2 * pi <= i32::MAX);
        assert(0 < k1 * pi <= k2 * pi) by (nonlinear_arith)
            requires
                1 <= k1 <= k2,
                pi > 0,
        ;
        assert(scaled(p, k1)[n - 1] == k1 * pi);
        assert(scaled(p, k2)[n - 1] == k2 * pi);
        lemma_ceil_div_antitone(t[n - 1] as int, k1 * pi, k2 * pi);
    }
}

/// The targets and per-page counts are positive, and `t_i + c_i - 1` fits in `i32`.
pub open spec fn pages_fit(t: Seq<i32>, c: Seq<i32>) -> bool {
    &&& c.len() >= t.len()
    &&& forall|i: int|
        0 <= i < t.len() ==> #[trigger] t[i] > 0 && c[i] > 0 && t[i] + c[i] - 1 <= i32::MAX
}

fn max_pages_exec(t: &[i32], c: &[i32]) -> (r: i32)
    requires
        pages_fit(t@, c@),
    ensures
        r == max_pages(t@, c@, t@.len() as int),
{
    let mut max_p: i32 = 0;
    let mut i: usize = 0;
    while i < t.len()
        invariant
            0 <= i <= t@.len(),
            pages_fit(t@, c@),
            max_p == max_pages(t@, c@, i as int),
        decreases t@.len() - i,
    {
        let pages = ceil_div_pos(t[i], c[i]);
        if pages > max_p {
            max_p = pages;
        }
        i += 1;
    }
    max_p
}

/// `P(k) = max_i ceil(T_i / (k * p_i))` (0 with no targets); `k` must be at least 1.
pub fn pages_for_k(targets: &[i32], pattern: &ProportionPattern, k: i32) -> (r: Result<
    i32,
    ProportionError,
>)
    requires
        k >= 1 ==> scaled_fits(pattern.p@, k as int) && pages_fit(
            targets@,
            scaled(pattern.p@, k as int),
        ),
    ensures
        k < 1 ==> r == Err::<i32, ProportionError>(ProportionError::InvalidK),
        k >= 1 ==> r == Ok::<i32, ProportionError>(
            max_pages(targets@, scaled(pattern.p@, k as int), targets@.len() as int) as i32,
        ),
{
    let c = counts_for_k(pattern, k)?;
    let m = max_pages_exec(targets, c.as_slice());
    Ok(m)
}

/// `sum_{i < n} (c_i * pages - t_i)`.
pub open spec fn over_sum(t: Seq<i32>, c: Seq<i32>, pages: int, n: int) -> int
    decreases n,
{
    if n <= 0 {
        0
    } else {
        over_sum(t, c, pages, n - 1) + (c[n - 1] * pages - t[n - 1])
    }
}

/// Every product, difference and running total of the overproduction fits in `i32`.
pub open spec fn over_fits(t: Seq<i32>, c: Seq<i32>, pages: int) -> bool {
    &&& c.len() >= t.len()
    &&& forall|i: int|
        0 <= i < t.len() ==> {
            &&& i32::MIN <= #[trigger] (c[i] * pages) <= i32::MAX
            &&& i32::MIN <= c[i] * pages - t[i] <= i32::MAX
        }
    &&& forall|n: int| 0 <= n <= t.len() ==> i32::MIN <= #[trigger] over_sum(t, c, pages, n) <= i32::MAX
}

/// Whether `total_overproduction` stays within `i32` on these inputs.
pub fn overproduction_fits(targets: &[i32], counts_per_page: &[i32], pages: i32) -> (b: bool)
    ensures
        b == over_fits(targets@, counts_per_page@, pages as int),
{
    let t = targets;
    let c = counts_per_page;
    if c.len() < t.len() {
        return false;
    }
    let mut acc: i128 = 0;
    let mut i: usize = 0;
    while i < t.len()
        invariant
            t@ == targets@,
            c@ == counts_per_page@,
            0 <= i <= t@.len(),
            c@.len() >= t@.len(),
            acc == over_sum(t@, c@, pages as int, i as int),
            forall|j: int|
                0 <= j < i ==> {
                    &&& i32::MIN <= #[trigger] (c@[j] * pages) <= i32::MAX
                    &&& i32::MIN <= c@[j] * pages - t@[j] <= i32::MAX
                },
            forall|n: int| 0 <= n <= i ==> i32::MIN <= #[trigger] over_sum(t@, c@, pages as int, n) <= i32::MAX,
        decreases t@.len() - i,
    {
        proof {
            lemma_i32_product(c@[i as int], pages);
        }
        let prod = (c[i] as i64) * (pages as i64);
        if prod < i32::MIN as i64 || prod > i32::MAX as i64 {
            assert(!(i32::MIN <= c@[i as int] * pages <= i32::MAX));
            return false;
        }
        let term = prod - t[i] as i64;
        if term < i32::MIN as i64 || term > i32::MAX as i64 {
            assert(i32::MIN <= c@[i as int] * pages <= i32::MAX);
            return false;
        }
        acc = acc + term as i128;
        if acc < i32::MIN as i128 || acc > i32::MAX as i128 {
            assert(over_sum(t@, c@, pages as int, i + 1) == acc);
            return false;
        }
        i += 1;
    }
    true
}

/// Copies produced beyond the targets: `sum_i (c_i * pages - T_i)`.
pub fn total_overproduction(targets: &[i32], counts_per_page: &[i32], pages: i32) -> (r: i32)
    requires
        over_fits(targets@, counts_per_page@, pages as int),
    ensures
        r == over_sum(targets@, counts_per_page@, pages as int, targets@.len() as int),
{
    let mut sum: i32 = 0;
    let mut i: usize = 0;
    while i < targets.len()
        invariant
            0 <= i <= targets@.len(),
            over_fits(targets@, counts_per_page@, pages as int),
            sum == over_sum(targets@, counts_per_page@, pages as int, i as int),
        decreases targets@.len() - i,
    {
        assert(i32::MIN <= over_sum(targets@, counts_per_page@, pages as int, i + 1) <= i32::MAX);
        sum += counts_per_page[i] * pages - targets[i];
        i += 1;
    }
    sum
}

/// If `counts` is exactly `k * p` for some `k >= 1`, that `k` (read off the first
/// entry).
pub open spec fn infer_k(counts: Seq<i32>, p: Seq<i32>) -> Option<i32> {
    if p.len() == 0 || counts.len() == 0 || p[0] == 0 {
        None
    } else if counts[0] % p[0] != 0 || counts[0] / p[0] < 1 {
        None
    } else if forall|i: int| 0 <= i < counts.len() ==> #[trigger] counts[i] == (counts[0] / p[0]) * p[i] {
        Some((counts[0] / p[0]) as i32)
    } else {
        None
    }
}

/// `(t_0 / p_0) * p_i` fits in `i32` for every `i`, whenever `p_0 >= 1`.
pub open spec fn infer_fits(t: Seq<i32>, p: Seq<i32>) -> bool {
    t.len() > 0 && p.len() > 0 && p[0] >= 1 ==> forall|i: int|
        0 <= i < p.len() ==> i32::MIN <= #[trigger] ((t[0] / p[0]) * p[i]) <= i32::MAX
}

proof fn lemma_mul_between(k: int, kmax: int, x: int)
    requires
        1 <= k <= kmax,
    ensures
        x >= 0 ==> x <= k * x <= kmax * x,
        x < 0 ==> kmax * x <= k * x <= x,
{
    assert(x >= 0 ==> x <= k * x <= kmax * x) by (nonlinear_arith)
        requires
            1 <= k <= kmax,
    ;
    assert(x < 0 ==> kmax * x <= k * x <= x) by (nonlinear_arith)
        requires
            1 <= k <= kmax,
    ;
}

fn infer_gcd_k(counts: &[i32], p: &[i32], Ghost(t0): Ghost<int>) -> (r: Option<i32>)
    requires
        counts@.len() > 0 ==> 1 <= counts@[0] <= t0,
        p@.len() >= counts@.len(),
        counts@.len() > 0 && p@.len() > 0 && p@[0] >= 1 ==> forall|i: int|
            0 <= i < p@.len() ==> i32::MIN <= #[trigger] ((t0 / (p@[0] as int)) * p@[i]) <= i32::MAX,
    ensures
        r == infer_k(counts@, p@),
{
    if p.len() == 0 || counts.len() == 0 {
        return None;
    }
    if p[0] <= 0 {
        if p[0] < 0 {
            assert(counts@[0] / p@[0] < 1) by (nonlinear_arith)
                requires
                    counts@[0] >= 1,
                    p@[0] < 0,
            {
                lemma_fundamental_div_mod(counts@[0] as int, p@[0] as int);
            }
        }
        return None;
    }
    let c0 = counts[0];
    let p0 = p[0];
    if c0 % p0 != 0 {
        return None;
    }
    let k0 = c0 / p0;
    if k0 < 1 {
        return None;
    }
    proof {
        assert(k0 <= t0 / p0 as int) by (nonlinear_arith)
            requires
                1 <= c0 <= t0,
                p0 >= 1,
                k0 == c0 / p0,
        {
            vstd::arithmetic::div_mod::lemma_div_is_ordered(c0 as int, t0, p0 as int);
        }
    }
    let mut i: usize = 0;
    while i < counts.len()
        invariant
            0 <= i <= counts@.len(),
            p@.len() >= counts@.len(),
            k0 == counts@[0] / p@[0],
            1 <= k0 <= t0 / (p@[0] as int),
            forall|j: int|
                0 <= j < p@.len() ==> i32::MIN <= #[trigger] ((t0 / (p@[0] as int)) * p@[j]) <= i32::MAX,
            forall|j: int| 0 <= j < i ==> #[trigger] counts@[j] == k0 * p@[j],
        decreases counts@.len() - i,
    {
        proof {
            lemma_mul_between(k0 as int, t0 / (p@[0] as int), p@[i as int] as int);
        }
        if counts[i] != k0 * p[i] {
            return None;
        }
        i += 1;
    }
    Some(k0)
}

/// One candidate per-sheet count vector, its sheet count `pages`, and the `k` for which
/// it equals `k * p` (when known).
#[derive(Debug, Clone, PartialEq, Eq)]
pub struct CountPlan {
    pub counts: Vec<i32>,
    pub pages: i32,
    pub gcd_k: Option<i32>,
}

pub struct CountPlanView {
    pub counts: Seq<i32>,
    pub pages: i32,
    pub gcd_k: Option<i32>,
}

impl View for CountPlan {
    type V = CountPlanView;

    open spec fn view(&self) -> CountPlanView {
        CountPlanView { counts: self.counts@, pages: self.pages, gcd_k: self.gcd_k }
    }
}

pub open spec fn plans_view(v: Seq<CountPlan>) -> Seq<CountPlanView> {
    v.map_values(|p: CountPlan| p@)
}

/// The largest target (1 when there are none).
pub open spec fn max_target(t: Seq<i32>) -> int
    decreases t.len(),
{
    if t.len() == 0 {
        1
    } else if t.len() == 1 {
        t[0] as int
    } else {
        let m = max_target(t.drop_last());
        if t.last() > m {
            t.last() as int
        } else {
            m
        }
    }
}

/// Counts that print every target on `q` sheets: `ceil(t_i / q)`.
pub open spec fn ceil_counts(t: Seq<i32>, q: int) -> Seq<i32> {
    t.map_values(|ti: i32| ceil_div(ti as int, q) as i32)
}

pub open spec fn nonneg(a: int) -> nat {
    if a < 0 { 0 } else { a as nat }
}

/// The candidate count vectors in order: `k * p` for `k = 1..=k_max`, then the ceiling
/// family `ceil(T / q)` for `q = 1..=max T`.
pub open spec fn candidates(t: Seq<i32>, p: Seq<i32>, k_max: int) -> Seq<(Seq<i32>, Option<i32>)> {
    Seq::new(nonneg(k_max), |j: int| (scaled(p, j + 1), Some((j + 1) as i32))) + Seq::new(
        nonneg(max_target(t)),
        |j: int| (ceil_counts(t, j + 1), infer_k(ceil_counts(t, j + 1), p)),
    )
}

/// The index of the plan with these counts, or -1.
pub open spec fn find_counts(plans: Seq<CountPlanView>, c: Seq<i32>) -> int
    decreases plans.len(),
{
    if plans.len() == 0 {
        -1
    } else {
        let i = find_counts(plans.drop_last(), c);
        if i >= 0 {
            i
        } else if plans.last().counts == c {
            plans.len() - 1
        } else {
            -1
        }
    }
}

pub open spec fn min_len(a: int, b: int) -> int {
    if a < b { a } else { b }
}

/// Records a candidate (unless some count is below 1): a new plan, or, for counts
/// already recorded, the plan with its `k` kept when the candidate has none.
pub open spec fn upsert(
    plans: Seq<CountPlanView>,
    c: Seq<i32>,
    gk: Option<i32>,
    t: Seq<i32>,
) -> Seq<CountPlanView> {
    if exists|i: int| 0 <= i < c.len() && #[trigger] c[i] < 1 {
        plans
    } else {
        let pages = max_pages(t, c, min_len(t.len() as int, c.len() as int)) as i32;
        let idx = find_counts(plans, c);
        if idx >= 0 {
            plans.update(
                idx,
                CountPlanView {
                    counts: c,
                    pages: pages,
                    gcd_k: if gk is Some {
                        gk
                    } else {
                        plans[idx].gcd_k
                    },
                },
            )
        } else {
            plans.push(CountPlanView { counts: c, pages: pages, gcd_k: gk })
        }
    }
}

pub open spec fn fold_plans(cands: Seq<(Seq<i32>, Option<i32>)>, n: int, t: Seq<i32>) -> Seq<
    CountPlanView,
>
    decreases n,
{
    if n <= 0 {
        seq![]
    } else {
        upsert(fold_plans(cands, n - 1, t), cands[n - 1].0, cands[n - 1].1, t)
    }
}

/// The distinct count plans, in order of first discovery.
pub open spec fn count_plans(t: Seq<i32>, p: Seq<i32>, k_max: int) -> Seq<CountPlanView> {
    let cands = candidates(t, p, k_max);
    fold_plans(cands, cands.len() as int, t)
}

/// What the enumeration needs so that none of its `i32` arithmetic overflows: positive
/// targets with `2 T_i - 1` in range, a pattern at least as long as the targets, and
/// `k_max * p_i`, `T_i + k_max * p_i - 1` and `(T_0 / p_0) * p_i` in range.
pub open spec fn plans_fit(t: Seq<i32>, p: Seq<i32>, k_max: int) -> bool {
    &&& all_positive(t)
    &&& forall|i: int| 0 <= i < t.len() ==> 2 * #[trigger] t[i] - 1 <= i32::MAX
    &&& p.len() >= t.len()
    &&& k_max >= 1 ==> scaled_fits(p, k_max)
    &&& k_max >= 1 ==> forall|i: int|
        0 <= i < t.len() && p[i] >= 1 ==> #[trigger] t[i] + k_max * p[i] - 1 <= i32::MAX
    &&& infer_fits(t, p)
}

/// Whether `enumerate_count_plans` can run on these inputs without leaving `i32`.
pub fn count_plans_fit(targets: &[i32], pattern: &ProportionPattern, k_max: i32) -> (b: bool)
    ensures
        b == plans_fit(targets@, pattern.p@, k_max as int),
{
    let t = targets;
    let p = &pattern.p;
    if p.len() < t.len() {
        return false;
    }
    let mut i: usize = 0;
    while i < t.len()
        invariant
            t@ == targets@,
            p@ == pattern.p@,
            0 <= i <= t@.len(),
            p@.len() >= t@.len(),
            forall|j: int| 0 <= j < i ==> #[trigger] t@[j] > 0 && 2 * t@[j] - 1 <= i32::MAX && (k_max
                >= 1 && p@[j] >= 1 ==> t@[j] + k_max * p@[j] - 1 <= i32::MAX),
        decreases t@.len() - i,
    {
        let ti = t[i] as i64;
        if ti <= 0 || 2 * ti - 1 > i32::MAX as i64 {
            assert(!all_positive(t@) || !(2 * t@[i as int] - 1 <= i32::MAX));
            assert(!plans_fit(targets@, pattern.p@, k_max as int));
            return false;
        }
        proof {
            lemma_i32_product(k_max, p@[i as int]);
        }
        if k_max >= 1 && p[i] >= 1 && ti + (k_max as i64) * (p[i] as i64) - 1 > i32::MAX as i64 {
            assert(!(t@[i as int] + k_max * p@[i as int] - 1 <= i32::MAX));
            assert(!plans_fit(targets@, pattern.p@, k_max as int));
            return false;
        }
        i += 1;
    }
    assert(all_positive(t@));
    if k_max >= 1 {
        let mut j: usize = 0;
        while j < p.len()
            invariant
                t@ == targets@,
                p@ == pattern.p@,
                0 <= j <= p@.len(),
                k_max >= 1,
                forall|m: int| 0 <= m < j ==> i32::MIN <= #[trigger] (k_max * p@[m]) <= i32::MAX,
            decreases p@.len() - j,
        {
            proof {
                lemma_i32_product(k_max, p@[j as int]);
            }
            let v = (k_max as i64) * (p[j] as i64);
            if v < i32::MIN as i64 || v > i32::MAX as i64 {
                assert(!(i32::MIN <= k_max * p@[j as int] <= i32::MAX));
                assert(!scaled_fits(p@, k_max as int));
                assert(!plans_fit(targets@, pattern.p@, k_max as int));
                return false;
            }
            j += 1;
        }
    }
    if t.len() > 0 && p.len() > 0 && p[0] >= 1 {
        let q: i32 = t[0] / p[0];
        let mut j: usize = 0;
        while j < p.len()
            invariant
                t@ == targets@,
                p@ == pattern.p@,
                0 <= j <= p@.len(),
                t@.len() > 0 && p@.len() > 0 && p@[0] >= 1,
                q == t@[0] / p@[0],
                forall|m: int|
                    0 <= m < j ==> i32::MIN <= #[trigger] ((t@[0] / p@[0]) * p@[m]) <= i32::MAX,
            decreases p@.len() - j,
        {
            proof {
                lemma_i32_product(q, p@[j as int]);
            }
            let v = (q as i64) * (p[j] as i64);
            if v < i32::MIN as i64 || v > i32::MAX as i64 {
                assert(!(i32::MIN <= (t@[0] / p@[0]) * p@[j as int] <= i32::MAX));
                assert(!infer_fits(t@, p@));
                assert(!plans_fit(targets@, pattern.p@, k_max as int));
                return false;
            }
            j += 1;
        }
    }
    true
}

fn vec_eq(a: &Vec<i32>, b: &Vec<i32>) -> (r: bool)
    ensures
        r == (a@ == b@),
{
    if a.len() != b.len() {
        return false;
    }
    let mut i: usize = 0;
    while i < a.len()
        invariant
            a@.len() == b@.len(),
            0 <= i <= a@.len(),
            forall|k: int| 0 <= k < i ==> a@[k] == b@[k],
        decreases a@.len() - i,
    {
        if a[i] != b[i] {
            return false;
        }
        i += 1;
    }
    assert(a@ =~= b@);
    true
}

proof fn lemma_find_counts(plans: Seq<CountPlanView>, c: Seq<i32>, j: int)
    requires
        0 <= j <= plans.len(),
        forall|k: int| 0 <= k < j ==> #[trigger] plans[k].counts != c,
    ensures
        j < plans.len() && plans[j].counts == c ==> find_counts(plans, c) == j,
        j == plans.len() ==> find_counts(plans, c) == -1,
    decreases plans.len(),
{
    if plans.len() > 0 {
        if j < plans.len() {
            if j < plans.len() - 1 {
                lemma_find_counts(plans.drop_last(), c, j);
            } else {
                lemma_find_counts(plans.drop_last(), c, j);
            }
        } else {
            lemma_find_counts(plans.drop_last(), c, j - 1);
        }
    }
}

fn upsert_exec(plans: &mut Vec<CountPlan>, c: Vec<i32>, gk: Option<i32>, t: &[i32])
    requires
        (forall|i: int| 0 <= i < c@.len() ==> #[trigger] c@[i] >= 1) ==> forall|i: int|
            0 <= i < min_len(t@.len() as int, c@.len() as int) ==> #[trigger] t@[i] > 0 && t@[i]
                + c@[i] - 1 <= i32::MAX,
    ensures
        plans_view(final(plans)@) == upsert(plans_view(old(plans)@), c@, gk, t@),
{
    let mut i: usize = 0;
    while i < c.len()
        invariant
            0 <= i <= c@.len(),
            forall|j: int| 0 <= j < i ==> #[trigger] c@[j] >= 1,
        decreases c@.len() - i,
    {
        if c[i] < 1 {
            return;
        }
        i += 1;
    }
    let n = if t.len() < c.len() { t.len() } else { c.len() };
    let mut pages: i32 = 0;
    let mut k: usize = 0;
    while k < n
        invariant
            0 <= k <= n,
            n == min_len(t@.len() as int, c@.len() as int),
            forall|j: int| 0 <= j < n ==> #[trigger] t@[j] > 0 && t@[j] + c@[j] - 1 <= i32::MAX,
            forall|j: int| 0 <= j < c@.len() ==> #[trigger] c@[j] >= 1,
            pages == max_pages(t@, c@, k as int),
        decreases n - k,
    {
        let here = ceil_div_pos(t[k], c[k]);
        if here > pages {
            pages = here;
        }
        k += 1;
    }
    let ghost pv = plans_view(plans@);
    let mut j: usize = 0;
    while j < plans.len()
        invariant
            0 <= j <= plans@.len(),
            pv == plans_view(plans@),
            plans@ == old(plans)@,
            forall|m: int| 0 <= m < j ==> #[trigger] pv[m].counts != c@,
            forall|q: int| 0 <= q < c@.len() ==> #[trigger] c@[q] >= 1,
            pages == max_pages(t@, c@, min_len(t@.len() as int, c@.len() as int)),
        decreases plans@.len() - j,
    {
        if vec_eq(&plans[j].counts, &c) {
            assert(pv[j as int].counts == c@);
            proof {
                lemma_find_counts(pv, c@, j as int);
            }
            assert(find_counts(pv, c@) == j);
            let merged = match gk {
                Some(g) => Some(g),
                None => plans[j].gcd_k,
            };
            assert(!(exists|q: int| 0 <= q < c@.len() && #[trigger] c@[q] < 1));
            assert(merged == (if gk is Some { gk } else { pv[j as int].gcd_k }));
            let ghost cv = c@;
            plans.set(j, CountPlan { counts: c, pages: pages, gcd_k: merged });
            assert(plans_view(plans@) =~= pv.update(
                j as int,
                CountPlanView { counts: cv, pages: pages, gcd_k: merged },
            ));
            assert(upsert(pv, cv, gk, t@) == pv.update(
                j as int,
                CountPlanView { counts: cv, pages: pages, gcd_k: merged },
            ));
            return;
        }
        j += 1;
    }
    proof {
        lemma_find_counts(pv, c@, j as int);
    }
    assert(!(exists|q: int| 0 <= q < c@.len() && #[trigger] c@[q] < 1));
    let ghost cv = c@;
    plans.push(CountPlan { counts: c, pages: pages, gcd_k: gk });
    assert(plans_view(plans@) =~= pv.push(CountPlanView { counts: cv, pages: pages, gcd_k: gk }));
}

proof fn lemma_ceil_bounds(t: int, q: int)
    requires
        t >= 1,
        q >= 1,
    ensures
        1 <= ceil_div(t, q) <= t,
{
    lemma_ceil_div(t, q);
    let c = ceil_div(t, q);
    assert(c <= t) by (nonlinear_arith)
        requires
            (c - 1) * q < t,
            q >= 1,
            c >= 1,
    ;
}

fn max_target_exec(t: &[i32]) -> (m: i32)
    ensures
        m == max_target(t@),
{
    if t.len() == 0 {
        return 1;
    }
    let mut m: i32 = t[0];
    let mut i: usize = 1;
    assert(t@.take(1).drop_last() =~= Seq::<i32>::empty());
    while i < t.len()
        invariant
            1 <= i <= t@.len(),
            m == max_target(t@.take(i as int)),
        decreases t@.len() - i,
    {
        assert(t@.take(i + 1).drop_last() =~= t@.take(i as int));
        if t[i] > m {
            m = t[i];
        }
        i += 1;
    }
    assert(t@.take(t@.len() as int) =~= t@);
    m
}

proof fn lemma_max_target_bounds(t: Seq<i32>)
    requires
        t.len() > 0,
    ensures
        forall|i: int| 0 <= i < t.len() ==> #[trigger] t[i] <= max_target(t),
        exists|i: int| 0 <= i < t.len() && #[trigger] t[i] == max_target(t),
    decreases t.len(),
{
    if t.len() == 1 {
        assert(t[0] == max_target(t));
    } else {
        lemma_max_target_bounds(t.drop_last());
        let d = t.drop_last();
        assert forall|i: int| 0 <= i < t.len() implies #[trigger] t[i] <= max_target(t) by {
            if i < t.len() - 1 {
                assert(t[i] == d[i]);
            }
        }
        if t.last() > max_target(d) {
            assert(t[t.len() - 1] == max_target(t));
        } else {
            let w = choose|i: int| 0 <= i < d.len() && #[trigger] d[i] == max_target(d);
            assert(t[w] == max_target(t));
        }
    }
}

fn ceil_counts_exec(t: &[i32], q: i32) -> (c: Vec<i32>)
    requires
        q >= 1,
        forall|i: int| 0 <= i < t@.len() ==> #[trigger] t@[i] > 0 && t@[i] + q - 1 <= i32::MAX,
    ensures
        c@ == ceil_counts(t@, q as int),
{
    let mut c: Vec<i32> = Vec::new();
    let mut i: usize = 0;
    while i < t.len()
        invariant
            0 <= i <= t@.len(),
            q >= 1,
            forall|j: int| 0 <= j < t@.len() ==> #[trigger] t@[j] > 0 && t@[j] + q - 1 <= i32::MAX,
            c@ == ceil_counts(t@.take(i as int), q as int),
        decreases t@.len() - i,
    {
        c.push(ceil_div_pos(t[i], q));
        assert(ceil_counts(t@.take(i + 1), q as int) =~= ceil_counts(t@.take(i as int), q as int).push(
            ceil_div(t@[i as int] as int, q as int) as i32,
        ));
        i += 1;
    }
    assert(t@.take(t@.len() as int) =~= t@);
    c
}

/// All distinct per-sheet count vectors to try: the gcd-scaled ratios `k * p` for
/// `k = 1..=k_max`, then `ceil(T / q)` for `q = 1..=max T`; vectors with a count below 1
/// are skipped, and a repeated vector keeps the `k` it was first given unless the repeat
/// brings one.
pub fn enumerate_count_plans(targets: &[i32], pattern: &ProportionPattern, k_max: i32) -> (plans: Vec<
    CountPlan,
>)
    requires
        plans_fit(targets@, pattern.p@, k_max as int),
    ensures
        plans_view(plans@) == count_plans(targets@, pattern.p@, k_max as int),
{
    let ghost t = targets@;
    let ghost p = pattern.p@;
    let ghost cands = candidates(t, p, k_max as int);
    let mut plans: Vec<CountPlan> = Vec::new();
    let mut kk: i64 = 1;
    while kk <= k_max as i64
        invariant
            1 <= kk,
            kk <= k_max + 1 || kk == 1,
            t == targets@,
            p == pattern.p@,
            cands == candidates(t, p, k_max as int),
            plans_fit(t, p, k_max as int),
            plans_view(plans@) == fold_plans(cands, kk - 1, t),
        decreases k_max as int + 1 - kk,
    {
        let k = kk as i32;
        proof {
            assert forall|i: int| 0 <= i < p.len() implies i32::MIN <= #[trigger] (k * p[i])
                <= i32::MAX by {
                lemma_mul_between(k as int, k_max as int, p[i] as int);
            }
        }
        let c = match counts_for_k(pattern, k) {
            Ok(c) => c,
            Err(_) => {
                assert(false);
                Vec::new()
            },
        };
        proof {
            assert(cands[kk - 1] == (scaled(p, kk as int), Some(k)));
            if forall|i: int| 0 <= i < c@.len() ==> #[trigger] c@[i] >= 1 {
                assert forall|i: int| 0 <= i < min_len(t.len() as int, c@.len() as int) implies #[trigger] t[i]
                    > 0 && t[i] + c@[i] - 1 <= i32::MAX by {
                    assert(c@[i] == k * p[i]);
                    lemma_mul_between(k as int, k_max as int, p[i] as int);
                    if p[i] < 1 {
                        assert(k * p[i] <= 0) by (nonlinear_arith)
                            requires
                                p[i] < 1,
                                k >= 1,
                        ;
                    }
                }
            }
        }
        upsert_exec(&mut plans, c, Some(k), targets);
        kk += 1;
    }
    let nk: i64 = if k_max < 1 { 0 } else { k_max as i64 };
    assert(nk == nonneg(k_max as int));
    let max_t = max_target_exec(targets);
    proof {
        if t.len() > 0 {
            lemma_max_target_bounds(t);
            let w = choose|i: int| 0 <= i < t.len() && #[trigger] t[i] == max_target(t);
            assert(2 * t[w] - 1 <= i32::MAX);
        }
    }
    let mut q: i64 = 1;
    while q <= max_t as i64
        invariant
            1 <= q,
            q <= max_t + 1 || q == 1,
            t == targets@,
            p == pattern.p@,
            nk == nonneg(k_max as int),
            max_t == max_target(t),
            t.len() > 0 ==> forall|i: int| 0 <= i < t.len() ==> #[trigger] t[i] <= max_t,
            t.len() > 0 ==> 2 * max_t - 1 <= i32::MAX,
            cands == candidates(t, p, k_max as int),
            plans_fit(t, p, k_max as int),
            plans_view(plans@) == fold_plans(cands, nk + q - 1, t),
        decreases max_t as int + 1 - q,
    {
        let qq = q as i32;
        let counts = ceil_counts_exec(targets, qq);
        proof {
            assert(cands[nk + q - 1] == (ceil_counts(t, q as int), infer_k(ceil_counts(t, q as int), p)));
            assert forall|i: int| 0 <= i < t.len() implies 1 <= #[trigger] counts@[i] <= t[i] by {
                lemma_ceil_bounds(t[i] as int, q as int);
            }
        }
        let ghost t0: int = if t.len() > 0 { t[0] as int } else { 0 };
        let inferred = infer_gcd_k(counts.as_slice(), pattern.p.as_slice(), Ghost(t0));
        upsert_exec(&mut plans, counts, inferred, targets);
        q += 1;
    }
    proof {
        assert(cands.len() == nk + nonneg(max_t as int));
    }
    plans
}

/// `c` is exactly `k * p`, entry by entry.
pub open spec fn is_multiple(c: Seq<i32>, p: Seq<i32>, k: int) -> bool {
    c.len() == p.len() && forall|i: int| 0 <= i < c.len() ==> #[trigger] c[i] == k * p[i]
}

/// A well-formed plan: one count (at least 1) per target, `pages` is the fewest sheets
/// that meet every target, and a recorded `k` is at least 1 with `counts == k * p`.
pub open spec fn plan_wf(pl: CountPlanView, t: Seq<i32>, p: Seq<i32>) -> bool {
    &&& pl.counts.len() == t.len()
    &&& forall|i: int| 0 <= i < t.len() ==> #[trigger] pl.counts[i] >= 1
    &&& pl.pages as int == max_pages(t, pl.counts, t.len() as int)
    &&& (pl.gcd_k matches Some(k) ==> k >= 1 && pl.counts == scaled(p, k as int))
}

/// A plan's `k` is exact: a recorded `k` gives `counts == k * p` entry by entry, and with
/// no `k` recorded (and some target) the counts are no multiple `k * p` with `k >= 1`.
pub open spec fn plan_k_exact(pl: CountPlanView, t: Seq<i32>, p: Seq<i32>) -> bool {
    &&& (pl.gcd_k matches Some(k) ==> is_multiple(pl.counts, p, k as int))
    &&& (pl.gcd_k is None && t.len() > 0 ==> forall|m: int|
        m >= 1 ==> !#[trigger] is_multiple(pl.counts, p, m))
}

/// The candidate list behind the plans: each has one count per target, and a recorded
/// `k` is at least 1 with `counts == k * p`.
spec fn cands_wf(cands: Seq<(Seq<i32>, Option<i32>)>, t: Seq<i32>, p: Seq<i32>) -> bool {
    forall|j: int|
        0 <= j < cands.len() ==> #[trigger] cands[j].0.len() == t.len() && (cands[j].1 matches Some(
            k,
        ) ==> k >= 1 && cands[j].0 == scaled(p, k as int))
}

/// The candidates' `k` is exact, as for plans.
spec fn cands_exact(cands: Seq<(Seq<i32>, Option<i32>)>, t: Seq<i32>, p: Seq<i32>) -> bool {
    forall|j: int|
        0 <= j < cands.len() ==> (#[trigger] cands[j].1 matches Some(k) ==> is_multiple(
            cands[j].0,
            p,
            k as int,
        )) && (cands[j].1 is None && t.len() > 0 ==> forall|m: int|
            m >= 1 ==> !#[trigger] is_multiple(cands[j].0, p, m))
}

/// With a positive pattern, counts that are `k * p` for some `k >= 1` have that `k`
/// inferred.
proof fn lemma_infer_k_complete(c: Seq<i32>, p: Seq<i32>, k: int)
    requires
        all_positive(p),
        p.len() > 0,
        k >= 1,
        is_multiple(c, p, k),
    ensures
        infer_k(c, p) == Some(k as i32),
{
    let p0 = p[0] as int;
    let c0 = c[0] as int;
    assert(c0 == p0 * k) by (nonlinear_arith)
        requires
            c0 == k * p[0],
            p0 == p[0],
    ;
    vstd::arithmetic::div_mod::lemma_div_multiples_vanish(k, p0);
    vstd::arithmetic::div_mod::lemma_mod_multiples_basic(k, p0);
    assert(c0 / p0 == k);
    assert(k <= c0) by (nonlinear_arith)
        requires
            c0 == k * p0,
            p0 >= 1,
            k >= 1,
    ;
}

/// Every enumerated plan is well formed.
pub proof fn count_plans_wf(t: Seq<i32>, p: Seq<i32>, k_max: int)
    requires
        all_positive(t),
        p.len() == t.len(),
        k_max <= i32::MAX,
    ensures
        forall|j: int|
            0 <= j < count_plans(t, p, k_max).len() ==> plan_wf(
                #[trigger] count_plans(t, p, k_max)[j],
                t,
                p,
            ),
{
    let cands = candidates(t, p, k_max);
    let nk = nonneg(k_max) as int;
    assert forall|j: int| 0 <= j < cands.len() implies #[trigger] cands[j].0.len() == t.len() && (
    cands[j].1 matches Some(k) ==> k >= 1 && cands[j].0 == scaled(p, k as int)) by {
        if j < nk {
            assert(cands[j] == (scaled(p, j + 1), Some((j + 1) as i32)));
        } else {
            let q = j - nk + 1;
            let c = ceil_counts(t, q);
            assert(cands[j] == (c, infer_k(c, p)));
            if infer_k(c, p) is Some {
                assert(t[0] > 0);
                lemma_ceil_bounds(t[0] as int, q);
                assert(c[0] >= 1);
                lemma_infer_k_scaled(c, p);
            }
        }
    }
    assert(cands_wf(cands, t, p));
    lemma_fold_plans_wf(cands, cands.len() as int, t, p);
}

/// For a positive pattern and `k_max * p` within `i32`, every enumerated plan records
/// `k` exactly when its counts are `k * p` with `k >= 1`, and then that `k`.
pub proof fn count_plans_k_exact(t: Seq<i32>, p: Seq<i32>, k_max: int)
    requires
        all_positive(t),
        all_positive(p),
        p.len() == t.len(),
        k_max <= i32::MAX,
        k_max >= 1 ==> scaled_fits(p, k_max),
    ensures
        forall|j: int|
            0 <= j < count_plans(t, p, k_max).len() ==> plan_k_exact(
                #[trigger] count_plans(t, p, k_max)[j],
                t,
                p,
            ),
{
    let cands = candidates(t, p, k_max);
    let nk = nonneg(k_max) as int;
    assert forall|j: int| 0 <= j < cands.len() implies (#[trigger] cands[j].1 matches Some(k)
        ==> is_multiple(cands[j].0, p, k as int)) && (cands[j].1 is None && t.len() > 0 ==> forall|
        m: int,
    | m >= 1 ==> !#[trigger] is_multiple(cands[j].0, p, m)) by {
        if j < nk {
            let k = j + 1;
            assert(cands[j] == (scaled(p, k), Some(k as i32)));
            assert forall|i: int| 0 <= i < p.len() implies #[trigger] scaled(p, k)[i] == k * p[i] by {
                lemma_mul_between(k, k_max, p[i] as int);
            }
        } else {
            let q = j - nk + 1;
            let c = ceil_counts(t, q);
            assert(cands[j] == (c, infer_k(c, p)));
            if infer_k(c, p) is Some {
                assert(t[0] > 0);
                lemma_ceil_bounds(t[0] as int, q);
                assert(c[0] >= 1);
                lemma_infer_k_scaled(c, p);
                let k = infer_k(c, p)->0;
                assert(is_multiple(c, p, k as int));
            } else if t.len() > 0 {
                assert forall|k: int| k >= 1 implies !#[trigger] is_multiple(c, p, k) by {
                    if is_multiple(c, p, k) {
                        lemma_infer_k_complete(c, p, k);
                    }
                }
            }
        }
    }
    assert(cands_exact(cands, t, p));
    lemma_fold_plans_exact(cands, cands.len() as int, t, p);
}

proof fn lemma_infer_k_scaled(c: Seq<i32>, p: Seq<i32>)
    requires
        infer_k(c, p) is Some,
        c.len() > 0 && c[0] >= 1,
        p.len() == c.len(),
    ensures
        infer_k(c, p) matches Some(k) && k >= 1 && c == scaled(p, k as int),
{
    let c0 = c[0] as int;
    let p0 = p[0] as int;
    let kk = c0 / p0;
    assert(kk >= 1);
    assert(p0 > 0 && kk <= c0) by (nonlinear_arith)
        requires
            c0 >= 1,
            p0 != 0,
            kk == c0 / p0,
            kk >= 1,
    {
        lemma_fundamental_div_mod(c0, p0);
        if p0 < 0 {
            assert(kk * p0 <= -1);
        }
    }
    let k = infer_k(c, p)->0;
    assert(k as int == kk);
    assert(c =~= scaled(p, k as int));
}

proof fn lemma_max_pages_in_range(t: Seq<i32>, c: Seq<i32>, n: int)
    requires
        0 <= n <= t.len(),
        c.len() >= t.len(),
        forall|i: int| 0 <= i < t.len() ==> #[trigger] t[i] > 0 && c[i] >= 1,
    ensures
        0 <= max_pages(t, c, n) <= i32::MAX,
    decreases n,
{
    if n > 0 {
        lemma_max_pages_in_range(t, c, n - 1);
        let ti = t[n - 1] as int;
        let ci = c[n - 1] as int;
        lemma_ceil_div(ti, ci);
        let q = ceil_div(ti, ci);
        assert(q <= ti) by (nonlinear_arith)
            requires
                (q - 1) * ci < ti,
                ci >= 1,
                q >= 1,
        ;
    }
}

proof fn lemma_find_counts_found(plans: Seq<CountPlanView>, c: Seq<i32>)
    ensures
        find_counts(plans, c) >= 0 ==> find_counts(plans, c) < plans.len() && plans[find_counts(
            plans,
            c,
        )].counts == c,
    decreases plans.len(),
{
    if plans.len() > 0 {
        lemma_find_counts_found(plans.drop_last(), c);
    }
}

proof fn lemma_fold_plans_wf(cands: Seq<(Seq<i32>, Option<i32>)>, n: int, t: Seq<i32>, p: Seq<i32>)
    requires
        0 <= n <= cands.len(),
        all_positive(t),
        cands_wf(cands, t, p),
    ensures
        forall|j: int|
            0 <= j < fold_plans(cands, n, t).len() ==> plan_wf(#[trigger] fold_plans(cands, n, t)[j], t, p),
    decreases n,
{
    if n > 0 {
        lemma_fold_plans_wf(cands, n - 1, t, p);
        let prev = fold_plans(cands, n - 1, t);
        let c = cands[n - 1].0;
        let gk = cands[n - 1].1;
        assert(c.len() == t.len());
        if !(exists|i: int| 0 <= i < c.len() && #[trigger] c[i] < 1) {
            lemma_max_pages_in_range(t, c, t.len() as int);
            assert(min_len(t.len() as int, c.len() as int) == t.len());
            let pages = max_pages(t, c, t.len() as int) as i32;
            let idx = find_counts(prev, c);
            lemma_find_counts_found(prev, c);
            let res = fold_plans(cands, n, t);
            if idx >= 0 {
                assert(plan_wf(prev[idx], t, p));
                assert forall|j: int| 0 <= j < res.len() implies plan_wf(#[trigger] res[j], t, p) by {
                    if j == idx {
                        assert(res[j].counts == c);
                    } else {
                        assert(res[j] == prev[j]);
                    }
                }
            } else {
                assert forall|j: int| 0 <= j < res.len() implies plan_wf(#[trigger] res[j], t, p) by {
                    if j < prev.len() {
                        assert(res[j] == prev[j]);
                    }
                }
            }
        }
    }
}

proof fn lemma_fold_plans_exact(cands: Seq<(Seq<i32>, Option<i32>)>, n: int, t: Seq<i32>, p: Seq<i32>)
    requires
        0 <= n <= cands.len(),
        cands_exact(cands, t, p),
    ensures
        forall|j: int|
            0 <= j < fold_plans(cands, n, t).len() ==> plan_k_exact(
                #[trigger] fold_plans(cands, n, t)[j],
                t,
                p,
            ),
    decreases n,
{
    if n > 0 {
        lemma_fold_plans_exact(cands, n - 1, t, p);
        let prev = fold_plans(cands, n - 1, t);
        let c = cands[n - 1].0;
        if !(exists|i: int| 0 <= i < c.len() && #[trigger] c[i] < 1) {
            let idx = find_counts(prev, c);
            lemma_find_counts_found(prev, c);
            let res = fold_plans(cands, n, t);
            assert(cands_exact(cands, t, p));
            assert(cands[n - 1].1 matches Some(k) ==> is_multiple(c, p, k as int));
            if idx >= 0 {
                assert(plan_k_exact(prev[idx], t, p));
                assert forall|j: int| 0 <= j < res.len() implies plan_k_exact(#[trigger] res[j], t, p) by {
                    if j == idx {
                        assert(res[j].counts == c);
                    } else {
                        assert(res[j] == prev[j]);
                    }
                }
            } else {
                assert forall|j: int| 0 <= j < res.len() implies plan_k_exact(#[trigger] res[j], t, p) by {
                    if j < prev.len() {
                        assert(res[j] == prev[j]);
                    }
                }
            }
        }
    }
}

proof fn lemma_find_counts_absent(plans: Seq<CountPlanView>, c: Seq<i32>)
    ensures
        find_counts(plans, c) < 0 ==> forall|k: int| 0 <= k < plans.len() ==> (#[trigger] plans[k]).counts != c,
    decreases plans.len(),
{
    if plans.len() > 0 {
        let d = plans.drop_last();
        lemma_find_counts_absent(d, c);
        if find_counts(plans, c) < 0 {
            assert forall|k: int| 0 <= k < plans.len() implies (#[trigger] plans[k]).counts != c by {
                if k < d.len() {
                    assert(plans[k] == d[k]);
                }
            }
        }
    }
}

/// Every count vector with all counts at least 1.
pub open spec fn counts_positive(c: Seq<i32>) -> bool {
    forall|i: int| 0 <= i < c.len() ==> #[trigger] c[i] >= 1
}

proof fn lemma_fold_plans_sets(cands: Seq<(Seq<i32>, Option<i32>)>, n: int, t: Seq<i32>)
    requires
        0 <= n <= cands.len(),
    ensures
        forall|i: int, j: int|
            0 <= i < j < fold_plans(cands, n, t).len() ==> (#[trigger] fold_plans(cands, n, t)[i]).counts
                != (#[trigger] fold_plans(cands, n, t)[j]).counts,
        forall|j: int|
            0 <= j < n && counts_positive(#[trigger] cands[j].0) ==> exists|i: int|
                0 <= i < fold_plans(cands, n, t).len() && fold_plans(cands, n, t)[i].counts == cands[j].0,
        forall|i: int|
            0 <= i < fold_plans(cands, n, t).len() ==> exists|j: int|
                0 <= j < n && (#[trigger] fold_plans(cands, n, t)[i]).counts == cands[j].0,
    decreases n,
{
    if n > 0 {
        lemma_fold_plans_sets(cands, n - 1, t);
        let prev = fold_plans(cands, n - 1, t);
        let res = fold_plans(cands, n, t);
        let c = cands[n - 1].0;
        if exists|i: int| 0 <= i < c.len() && #[trigger] c[i] < 1 {
            assert(res == prev);
            assert(!counts_positive(c));
            assert forall|i: int| 0 <= i < res.len() implies exists|j: int|
                0 <= j < n && (#[trigger] res[i]).counts == cands[j].0 by {
                let j = choose|j: int| 0 <= j < n - 1 && (#[trigger] prev[i]).counts == cands[j].0;
            }
        } else {
            let idx = find_counts(prev, c);
            lemma_find_counts_found(prev, c);
            lemma_find_counts_absent(prev, c);
            if idx >= 0 {
                assert(res.len() == prev.len());
                assert forall|i: int| 0 <= i < res.len() implies (#[trigger] res[i]).counts == prev[i].counts by {
                }
            } else {
                assert(res == prev.push(res.last()));
                assert(res.last().counts == c);
            }
            assert forall|i: int, j: int| 0 <= i < j < res.len() implies (#[trigger] res[i]).counts
                != (#[trigger] res[j]).counts by {
                if idx < 0 && j == prev.len() {
                    assert(res[i] == prev[i]);
                } else {
                    assert(res[i].counts == prev[i].counts && res[j].counts == prev[j].counts);
                }
            }
            assert forall|j: int| 0 <= j < n && counts_positive(#[trigger] cands[j].0) implies exists|i: int|
                0 <= i < res.len() && res[i].counts == cands[j].0 by {
                if j == n - 1 {
                    if idx >= 0 {
                        assert(res[idx].counts == c);
                    } else {
                        assert(res[prev.len() as int].counts == c);
                    }
                } else {
                    let i = choose|i: int| 0 <= i < prev.len() && prev[i].counts == cands[j].0;
                    assert(res[i].counts == prev[i].counts);
                }
            }
            assert forall|i: int| 0 <= i < res.len() implies exists|j: int|
                0 <= j < n && (#[trigger] res[i]).counts == cands[j].0 by {
                if i < prev.len() {
                    assert(res[i].counts == prev[i].counts);
                    let j = choose|j: int| 0 <= j < n - 1 && (#[trigger] prev[i]).counts == cands[j].0;
                } else {
                    assert(res[i].counts == cands[n - 1].0);
                }
            }
        }
    }
}

/// The enumerated plans have pairwise different counts; every candidate (`k * p` for
/// `k = 1..=k_max`, and `ceil(T / q)` for `q = 1..=max T`) whose counts are all at least 1
/// is among them; and each of them is such a candidate.
pub proof fn count_plans_distinct_and_complete(t: Seq<i32>, p: Seq<i32>, k_max: int)
    ensures
        forall|i: int, j: int|
            0 <= i < j < count_plans(t, p, k_max).len() ==> (#[trigger] count_plans(t, p, k_max)[i]).counts
                != (#[trigger] count_plans(t, p, k_max)[j]).counts,
        forall|k: int|
            1 <= k <= k_max && counts_positive(#[trigger] scaled(p, k)) ==> exists|i: int|
                0 <= i < count_plans(t, p, k_max).len() && count_plans(t, p, k_max)[i].counts == scaled(
                    p,
                    k,
                ),
        forall|q: int|
            1 <= q <= max_target(t) && counts_positive(#[trigger] ceil_counts(t, q)) ==> exists|i: int|
                0 <= i < count_plans(t, p, k_max).len() && count_plans(t, p, k_max)[i].counts
                    == ceil_counts(t, q),
        forall|i: int|
            0 <= i < count_plans(t, p, k_max).len() ==> (exists|k: int|
                1 <= k <= k_max && (#[trigger] count_plans(t, p, k_max)[i]).counts == scaled(p, k))
                || (exists|q: int| 1 <= q <= max_target(t) && count_plans(t, p, k_max)[i].counts == ceil_counts(t, q)),
{
    let cands = candidates(t, p, k_max);
    let nk = nonneg(k_max) as int;
    lemma_fold_plans_sets(cands, cands.len() as int, t);
    let plans = count_plans(t, p, k_max);
    assert forall|k: int| 1 <= k <= k_max && counts_positive(#[trigger] scaled(p, k)) implies exists|i: int|
        0 <= i < plans.len() && plans[i].counts == scaled(p, k) by {
        assert(cands[k - 1].0 == scaled(p, k));
    }
    assert forall|q: int| 1 <= q <= max_target(t) && counts_positive(#[trigger] ceil_counts(t, q)) implies exists|i: int|
        0 <= i < plans.len() && plans[i].counts == ceil_counts(t, q) by {
        assert(cands[nk + q - 1].0 == ceil_counts(t, q));
    }
    assert forall|i: int| 0 <= i < plans.len() implies (exists|k: int|
        1 <= k <= k_max && (#[trigger] plans[i]).counts == scaled(p, k)) || (exists|q: int|
        1 <= q <= max_target(t) && plans[i].counts == ceil_counts(t, q)) by {
        let j = choose|j: int| 0 <= j < cands.len() && (#[trigger] plans[i]).counts == cands[j].0;
        if j < nk {
            assert(cands[j].0 == scaled(p, j + 1));
        } else {
            assert(cands[j].0 == ceil_counts(t, j - nk + 1));
        }
    }
}

/// The smallest `floor(sheet_area / (p_i * w_i * h_i))` over the products with a
/// positive area and a positive `p_i * area` among the first `n`, if any.
pub open spec fn area_cap_upto(p: Seq<i32>, dims: Seq<(i32, i32)>, sheet_area: int, n: int) -> Option<
    int,
>
    decreases n,
{
    if n <= 0 {
        None
    } else {
        let prev = area_cap_upto(p, dims, sheet_area, n - 1);
        let i = n - 1;
        if i >= dims.len() {
            prev
        } else {
            let a = dims[i].0 * dims[i].1;
            let per_k = p[i] * a;
            if a <= 0 || per_k <= 0 {
                prev
            } else {
                let ki = sheet_area / per_k;
                match prev {
                    None => Some(ki),
                    Some(c) => Some(
                        if ki < c {
                            ki
                        } else {
                            c
                        },
                    ),
                }
            }
        }
    }
}

/// Upper bound on `k` from trivial area: the smallest per-product cap, clamped to
/// `1..=i32::MAX`; 1 when no product bounds it.
pub open spec fn spec_area_k_cap(p: Seq<i32>, dims: Seq<(i32, i32)>, sheet_w: int, sheet_h: int) -> int {
    match area_cap_upto(p, dims, sheet_w * sheet_h, p.len() as int) {
        None => 1,
        Some(c) => if c > i32::MAX {
            i32::MAX as int
        } else if c < 1 {
            1
        } else {
            c
        },
    }
}

proof fn lemma_i32_product(a: i32, b: i32)
    ensures
        -0x4000_0000_0000_0000 <= a * b <= 0x4000_0000_0000_0000,
{
    assert(-0x4000_0000_0000_0000 <= a * b <= 0x4000_0000_0000_0000) by (nonlinear_arith)
        requires
            -0x8000_0000 <= a <= 0x8000_0000,
            -0x8000_0000 <= b <= 0x8000_0000,
    ;
}

proof fn lemma_area_cap_negative(p: Seq<i32>, dims: Seq<(i32, i32)>, sheet_area: int, n: int)
    requires
        sheet_area < 0,
    ensures
        area_cap_upto(p, dims, sheet_area, n) matches Some(c) ==> c < 0,
    decreases n,
{
    if n > 0 {
        lemma_area_cap_negative(p, dims, sheet_area, n - 1);
        let i = n - 1;
        if i < dims.len() {
            let a = dims[i].0 * dims[i].1;
            let per_k = p[i] * a;
            if a > 0 && per_k > 0 {
                lemma_fundamental_div_mod(sheet_area, per_k);
                let q = sheet_area / per_k;
                assert(q < 0) by (nonlinear_arith)
                    requires
                        sheet_area == per_k * q + sheet_area % per_k,
                        0 <= sheet_area % per_k < per_k,
                        sheet_area < 0,
                ;
            }
        }
    }
}

/// Upper bound on `k` from trivial area: `floor(Wp * Hp / (p_i * w_i * h_i))` at its
/// smallest, clamped to at least 1 (and 1 when no product bounds it).  Computed exactly
/// in integers.
pub fn area_k_cap(pattern: &ProportionPattern, sheet_w: i32, sheet_h: i32, dims: &[(i32, i32)]) -> (r:
    i32)
    ensures
        r == spec_area_k_cap(pattern.p@, dims@, sheet_w as int, sheet_h as int),
{
    let ghost sa = sheet_w as int * sheet_h as int;
    proof {
        lemma_i32_product(sheet_w, sheet_h);
    }
    let s_area: i128 = sheet_w as i128 * sheet_h as i128;
    if s_area < 0 {
        proof {
            lemma_area_cap_negative(pattern.p@, dims@, sa, pattern.p@.len() as int);
        }
        return 1;
    }
    let mut cap: Option<i128> = None;
    let mut i: usize = 0;
    while i < pattern.p.len()
        invariant
            0 <= i <= pattern.p@.len(),
            s_area == sa,
            sa >= 0,
            sa <= 0x4000_0000_0000_0000,
            cap matches Some(c) ==> 0 <= c <= sa,
            (match cap {
                Some(c) => Some(c as int),
                None => None,
            }) == area_cap_upto(pattern.p@, dims@, sa, i as int),
        decreases pattern.p@.len() - i,
    {
        if i < dims.len() {
            let (w, h) = dims[i];
            proof {
                lemma_i32_product(w, h);
            }
            let a: i128 = w as i128 * h as i128;
            let pi: i128 = pattern.p[i] as i128;
            proof {
                assert(-0x1_0000_0000_0000_0000_0000_0000 <= pi * a <= 0x1_0000_0000_0000_0000_0000_0000)
                    by (nonlinear_arith)
                    requires
                        -0x8000_0000 <= pi <= 0x8000_0000,
                        -0x4000_0000_0000_0000 <= a <= 0x4000_0000_0000_0000,
                ;
            }
            let per_k: i128 = pi * a;
            if a > 0 && per_k > 0 {
                let ki = s_area / per_k;
                proof {
                    assert(0 <= ki <= sa) by (nonlinear_arith)
                        requires
                            ki == sa / (per_k as int),
                            sa >= 0,
                            per_k >= 1,
                    {
                        vstd::arithmetic::div_mod::lemma_div_is_ordered_by_denominator(sa, 1, per_k as int);
                    }
                }
                cap = match cap {
                    None => Some(ki),
                    Some(c) => Some(
                        if ki < c {
                            ki
                        } else {
                            c
                        },
                    ),
                };
            }
        }
        i += 1;
    }
    match cap {
        None => 1,
        Some(c) => if c > i32::MAX as i128 {
            i32::MAX
        } else if c < 1 {
            1
        } else {
            c as i32
        },
    }
}

} // verus!
