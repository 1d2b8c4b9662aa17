//! Fixed-point vectors and their similarity.

use vstd::prelude::*;

verus! {

/// The value one as a vector component: components count billionths.
pub const ONE: i32 = 1_000_000_000;

/// The value one as a similarity: the product of two components that are one.
pub const SIM_ONE: i64 = 1_000_000_000_000_000_000;

/// Sum of the products of the first `n` pairs of components.
pub open spec fn dot_prefix(a: Seq<i32>, b: Seq<i32>, n: nat) -> int
    decreases n,
{
    if n == 0 {
        0
    } else {
        dot_prefix(a, b, (n - 1) as nat) + a[n - 1] * b[n - 1]
    }
}

/// Dot product over the components that both vectors have.
pub open spec fn dot(a: Seq<i32>, b: Seq<i32>) -> int {
    dot_prefix(a, b, if a.len() <= b.len() { a.len() } else { b.len() })
}

/// Squared Euclidean norm.
pub open spec fn norm_sq(a: Seq<i32>) -> int {
    dot(a, a)
}

/// The nearest value that a similarity can hold.
pub open spec fn saturate(x: int) -> int {
    if x < i64::MIN {
        i64::MIN as int
    } else if x > i64::MAX {
        i64::MAX as int
    } else {
        x
    }
}

/// Similarity of two vectors: their dot product, which for unit vectors is the
/// cosine of the angle between them. A product beyond the range of a
/// similarity, which only vectors far from unit length can give, stops at the
/// end of that range.
pub open spec fn similarity(a: Seq<i32>, b: Seq<i32>) -> int {
    saturate(dot(a, b))
}

/// Unit length up to rounding. On paper a unit vector has squared norm one;
/// here every component is rounded toward zero to a whole number of
/// billionths, which can take less than `2 * ONE + 1` similarity units off
/// the squared norm for each component and never adds to it.
pub open spec fn is_unit(v: Seq<i32>) -> bool {
    SIM_ONE - (2 * ONE + 1) * v.len() < norm_sq(v) <= SIM_ONE
}

/// Largest magnitude of a product of two components.
pub open spec fn term_bound() -> int {
    0x4000_0000_0000_0000
}

proof fn lemma_term_bounded(x: i32, y: i32)
    ensures
        -term_bound() <= x * y <= term_bound(),
{
    assert(-term_bound() <= x * y <= term_bound()) by (nonlinear_arith)
        requires
            -0x8000_0000 <= x <= 0x7fff_ffff,
            -0x8000_0000 <= y <= 0x7fff_ffff,
            term_bound() == 0x4000_0000_0000_0000,
    ;
}

proof fn lemma_dot_prefix_bounded(a: Seq<i32>, b: Seq<i32>, n: nat)
    ensures
        -(n * term_bound()) <= dot_prefix(a, b, n) <= n * term_bound(),
    decreases n,
{
    if n > 0 {
        lemma_dot_prefix_bounded(a, b, (n - 1) as nat);
        lemma_term_bounded(a[n - 1], b[n - 1]);
        assert(n * term_bound() == (n - 1) * term_bound() + term_bound()) by (nonlinear_arith);
    }
}

/// Similarity of two vectors, over the components that both have.
pub fn dot_product(a: &[i32], b: &[i32]) -> (sim: i64)
    ensures
        sim == similarity(a@, b@),
{
    let n: usize = if a.len() <= b.len() { a.len() } else { b.len() };
    let mut acc: i128 = 0;
    let mut i: usize = 0;
    while i < n
        invariant
            i <= n,
            n <= a.len(),
            n <= b.len(),
            acc == dot_prefix(a@, b@, i as nat),
        decreases n - i,
    {
        proof {
            lemma_dot_prefix_bounded(a@, b@, i as nat);
            lemma_term_bounded(a[i as int], b[i as int]);
            assert(i * term_bound() <= 0xffff_ffff_ffff_ffff * term_bound()) by (nonlinear_arith)
                requires
                    i <= 0xffff_ffff_ffff_ffff,
                    term_bound() >= 0,
            ;
        }
        let x: i128 = a[i] as i128;
        let y: i128 = b[i] as i128;
        acc = acc + x * y;
        i = i + 1;
    }
    if acc < i64::MIN as i128 {
        i64::MIN
    } else if acc > i64::MAX as i128 {
        i64::MAX
    } else {
        acc as i64
    }
}

/// `root` is the integer square root of `n`: the largest number whose square
/// does not exceed `n`.
pub open spec fn is_sqrt_floor(n: nat, root: nat) -> bool {
    root * root <= n < (root + 1) * (root + 1)
}

/// Integer square root, rounded down.
pub open spec fn isqrt(n: nat) -> nat {
    choose|root: nat| is_sqrt_floor(n, root)
}

proof fn lemma_sqrt_floor_exists(n: nat)
    ensures
        exists|root: nat| is_sqrt_floor(n, root),
    decreases n,
{
    if n == 0 {
        assert(is_sqrt_floor(0, 0)) by (nonlinear_arith);
    } else {
        let m = (n - 1) as nat;
        lemma_sqrt_floor_exists(m);
        let r = choose|root: nat| is_sqrt_floor(m, root);
        if (r + 1) * (r + 1) <= n {
            assert((r + 2) * (r + 2) > (r + 1) * (r + 1)) by (nonlinear_arith);
            assert(is_sqrt_floor(n, r + 1));
        } else {
            assert(is_sqrt_floor(n, r));
        }
    }
}

/// Only one number is the integer square root of `n`, and `isqrt` names it.
pub proof fn lemma_isqrt_unique(n: nat, root: nat)
    requires
        is_sqrt_floor(n, root),
    ensures
        isqrt(n) == root,
{
    let other = isqrt(n);
    assert(is_sqrt_floor(n, other));
    assert(other == root) by (nonlinear_arith)
        requires
            root * root <= n < (root + 1) * (root + 1),
            other * other <= n < (other + 1) * (other + 1),
    ;
}

/// The integer square root squares to at most `n`, and its successor to more.
pub proof fn lemma_isqrt_bounds(n: nat)
    ensures
        is_sqrt_floor(n, isqrt(n)),
{
    lemma_sqrt_floor_exists(n);
}

/// Integer square root, rounded down.
pub fn integer_sqrt(n: u64) -> (root: u32)
    ensures
        root == isqrt(n as nat),
{
    let mut lo: u64 = 0;
    let mut hi: u64 = 0x1_0000_0000;
    assert(0x1_0000_0000u64 * 0x1_0000_0000u64 > n) by (nonlinear_arith)
        requires
            n <= 0xffff_ffff_ffff_ffff,
    ;
    while hi - lo > 1
        invariant
            lo < hi <= 0x1_0000_0000,
            lo * lo <= n < hi * hi,
        decreases hi - lo,
    {
        let mid: u64 = lo + (hi - lo) / 2;
        assert(mid * mid <= 0xffff_ffff * 0xffff_ffff) by (nonlinear_arith)
            requires
                mid <= 0xffff_ffff,
        ;
        if mid * mid <= n {
            lo = mid;
        } else {
            hi = mid;
        }
    }
    proof {
        lemma_isqrt_unique(n as nat, lo as nat);
    }
    lo as u32
}

proof fn lemma_dot_prefix_symmetric(a: Seq<i32>, b: Seq<i32>, n: nat)
    ensures
        dot_prefix(a, b, n) == dot_prefix(b, a, n),
    decreases n,
{
    if n > 0 {
        lemma_dot_prefix_symmetric(a, b, (n - 1) as nat);
        assert(a[n - 1] * b[n - 1] == b[n - 1] * a[n - 1]) by (nonlinear_arith);
    }
}

/// Similarity does not depend on the order of its arguments.
pub proof fn lemma_similarity_symmetric(a: Seq<i32>, b: Seq<i32>)
    ensures
        dot(a, b) == dot(b, a),
        similarity(a, b) == similarity(b, a),
{
    lemma_dot_prefix_symmetric(a, b, if a.len() <= b.len() { a.len() } else { b.len() });
}

proof fn lemma_dot_prefix_self_monotone(a: Seq<i32>, i: nat, n: nat)
    requires
        i <= n,
    ensures
        0 <= dot_prefix(a, a, i) <= dot_prefix(a, a, n),
    decreases n,
{
    if n > 0 {
        assert(a[n - 1] * a[n - 1] >= 0) by (nonlinear_arith);
        if i == n {
            lemma_dot_prefix_self_monotone(a, (i - 1) as nat, (n - 1) as nat);
        } else {
            lemma_dot_prefix_self_monotone(a, i, (n - 1) as nat);
        }
    }
}

proof fn lemma_dot_prefix_within_norms(a: Seq<i32>, b: Seq<i32>, n: nat)
    ensures
        2 * dot_prefix(a, b, n) <= dot_prefix(a, a, n) + dot_prefix(b, b, n),
        -2 * dot_prefix(a, b, n) <= dot_prefix(a, a, n) + dot_prefix(b, b, n),
    decreases n,
{
    if n > 0 {
        lemma_dot_prefix_within_norms(a, b, (n - 1) as nat);
        let x = a[n - 1] as int;
        let y = b[n - 1] as int;
        assert(0 <= (x - y) * (x - y)) by (nonlinear_arith);
        assert(0 <= (x + y) * (x + y)) by (nonlinear_arith);
        assert((x - y) * (x - y) == x * x - 2 * (x * y) + y * y) by (nonlinear_arith);
        assert((x + y) * (x + y) == x * x + 2 * (x * y) + y * y) by (nonlinear_arith);
        assert(2 * (x * y) <= x * x + y * y) by (nonlinear_arith)
            requires
                0 <= (x - y) * (x - y),
                (x - y) * (x - y) == x * x - 2 * (x * y) + y * y,
        ;
        assert(-2 * (x * y) <= x * x + y * y) by (nonlinear_arith)
            requires
                0 <= (x + y) * (x + y),
                (x + y) * (x + y) == x * x + 2 * (x * y) + y * y,
        ;
    }
}

/// Twice the magnitude of a dot product is at most the sum of the two squared
/// norms.
pub proof fn lemma_dot_within_norms(a: Seq<i32>, b: Seq<i32>)
    ensures
        2 * dot(a, b) <= norm_sq(a) + norm_sq(b),
        -2 * dot(a, b) <= norm_sq(a) + norm_sq(b),
{
    let n = if a.len() <= b.len() { a.len() } else { b.len() };
    lemma_dot_prefix_within_norms(a, b, n);
    lemma_dot_prefix_self_monotone(a, n, a.len());
    lemma_dot_prefix_self_monotone(b, n, b.len());
}

/// The similarity of two unit vectors is their exact dot product and lies
/// between minus one and one.
pub proof fn lemma_unit_similarity_in_range(a: Seq<i32>, b: Seq<i32>)
    requires
        is_unit(a),
        is_unit(b),
    ensures
        similarity(a, b) == dot(a, b),
        -SIM_ONE <= similarity(a, b) <= SIM_ONE,
{
    lemma_dot_within_norms(a, b);
}

/// The similarity of a unit vector with itself is one, up to the rounding
/// that `is_unit` allows.
pub proof fn lemma_self_similarity_is_one(v: Seq<i32>)
    requires
        is_unit(v),
    ensures
        SIM_ONE - (2 * ONE + 1) * v.len() < similarity(v, v) <= SIM_ONE,
{
    lemma_unit_similarity_in_range(v, v);
}

} // verus!
