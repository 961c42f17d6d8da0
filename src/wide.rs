use vstd::prelude::*;

verus! {

/// 2^64, the base of a half word.
pub const HALF: u128 = 0x1_0000_0000_0000_0000;

/// 2^128, the base of a full word.
pub open spec fn word() -> int {
    HALF as int * HALF as int
}

/// 2^80, the bound on the operands of `cmp_scaled_squares`.
pub const OPERAND_LIMIT: u128 = 0x1_0000_0000_0000_0000_0000;

proof fn lemma_half_product(x: int, y: int)
    requires
        0 <= x < HALF,
        0 <= y < HALF,
    ensures
        0 <= x * y < word(),
        x * y <= u128::MAX,
{
    assert(0 <= x * y < HALF as int * HALF as int) by (nonlinear_arith)
        requires
            0 <= x < HALF,
            0 <= y < HALF,
    ;
}

proof fn lemma_expand(a1: int, a0: int, b1: int, b0: int, bb: int)
    ensures
        (a1 * bb + a0) * (b1 * bb + b0) == a1 * b1 * (bb * bb) + (a0 * b1 + a1 * b0) * bb + a0
            * b0,
{
    let x = a1 * bb;
    let y = b1 * bb;
    assert((x + a0) * (y + b0) == x * y + x * b0 + a0 * y + a0 * b0) by (nonlinear_arith);
    assert(x * y == a1 * b1 * (bb * bb)) by (nonlinear_arith)
        requires
            x == a1 * bb,
            y == b1 * bb,
    ;
    assert(x * b0 + a0 * y == (a0 * b1 + a1 * b0) * bb) by (nonlinear_arith)
        requires
            x == a1 * bb,
            y == b1 * bb,
    ;
}

proof fn lemma_assemble(
    bb: int,
    q11: int,
    d01: int,
    r01: int,
    d10: int,
    r10: int,
    d00: int,
    r00: int,
    dm: int,
    rm: int,
)
    requires
        d00 + r01 + r10 == dm * bb + rm,
    ensures
        q11 * (bb * bb) + ((d01 * bb + r01) + (d10 * bb + r10)) * bb + (d00 * bb + r00) == (q11
            + d01 + d10 + dm) * (bb * bb) + (r00 + rm * bb),
{
    assert(q11 * (bb * bb) + ((d01 * bb + r01) + (d10 * bb + r10)) * bb + (d00 * bb + r00) == (q11
        + d01 + d10 + dm) * (bb * bb) + (r00 + rm * bb)) by (nonlinear_arith)
        requires
            d00 + r01 + r10 == dm * bb + rm,
    ;
}

/// The full product of two words, as a high word and a low word.
pub fn mul_wide(a: u128, b: u128) -> (r: (u128, u128))
    ensures
        a * b == r.0 * word() + r.1,
{
    let a0 = a % HALF;
    let a1 = a / HALF;
    let b0 = b % HALF;
    let b1 = b / HALF;
    proof {
        lemma_half_product(a0 as int, b0 as int);
        lemma_half_product(a0 as int, b1 as int);
        lemma_half_product(a1 as int, b0 as int);
        lemma_half_product(a1 as int, b1 as int);
    }
    let p00 = a0 * b0;
    let p01 = a0 * b1;
    let p10 = a1 * b0;
    let p11 = a1 * b1;
    let mid = p00 / HALF + p01 % HALF + p10 % HALF;
    let lo = p00 % HALF + (mid % HALF) * HALF;
    let ghost h: int = p11 + p01 / HALF + p10 / HALF + mid / HALF;
    proof {
        let bb = HALF as int;
        let (ai, bi, a0i, a1i, b0i, b1i) = (a as int, b as int, a0 as int, a1 as int, b0 as int, b1 as int);
        let (q00, q01, q10, q11, m, l) = (p00 as int, p01 as int, p10 as int, p11 as int, mid as int, lo as int);
        lemma_expand(a1i, a0i, b1i, b0i, bb);
        lemma_assemble(
            bb,
            q11,
            q01 / bb,
            q01 % bb,
            q10 / bb,
            q10 % bb,
            q00 / bb,
            q00 % bb,
            m / bb,
            m % bb,
        );
        assert(ai * bi == h * (bb * bb) + l);
        assert(ai * bi <= u128::MAX * u128::MAX) by (nonlinear_arith)
            requires
                0 <= ai <= u128::MAX,
                0 <= bi <= u128::MAX,
        ;
        assert(h < bb * bb) by (nonlinear_arith)
            requires
                ai * bi == h * (bb * bb) + l,
                l >= 0,
                ai * bi <= u128::MAX * u128::MAX,
                bb * bb == u128::MAX + 1,
        ;
    }
    let hi = p11 + p01 / HALF + p10 / HALF + mid / HALF;
    (hi, lo)
}

/// `n * n * d` as a high word and a low word.
fn scaled_square(n: u128, d: u128) -> (r: (u128, u128))
    requires
        n < OPERAND_LIMIT,
        d < OPERAND_LIMIT,
    ensures
        n * n * d == r.0 * word() + r.1,
{
    let (h, l) = mul_wide(n, n);
    let (h2, l2) = mul_wide(l, d);
    proof {
        let w = word();
        let lim = OPERAND_LIMIT as int;
        let (n, d, h, l, h2, l2) = (n as int, d as int, h as int, l as int, h2 as int, l2 as int);
        assert(n * n < lim * lim) by (nonlinear_arith)
            requires
                0 <= n < lim,
        ;
        assert(h < 0x1_0000_0000) by (nonlinear_arith)
            requires
                n * n == h * w + l,
                l >= 0,
                n * n < lim * lim,
                lim * lim == 0x1_0000_0000 * w,
        ;
        assert(h2 < lim) by (nonlinear_arith)
            requires
                l * d == h2 * w + l2,
                l2 >= 0,
                0 <= l < w,
                0 <= d < lim,
        ;
        assert(h * d < 0x1_0000_0000 * lim) by (nonlinear_arith)
            requires
                0 <= h < 0x1_0000_0000,
                0 <= d < lim,
        ;
        assert(n * n * d == (h * d + h2) * w + l2) by (nonlinear_arith)
            requires
                n * n == h * w + l,
                l * d == h2 * w + l2,
        ;
    }
    (h * d + h2, l2)
}

/// Compares `n1 * n1 * d1` with `n2 * n2 * d2`.
pub fn cmp_scaled_squares(n1: u128, d1: u128, n2: u128, d2: u128) -> (r: core::cmp::Ordering)
    requires
        n1 < OPERAND_LIMIT,
        d1 < OPERAND_LIMIT,
        n2 < OPERAND_LIMIT,
        d2 < OPERAND_LIMIT,
    ensures
        (r == core::cmp::Ordering::Less) == (n1 * n1 * d1 < n2 * n2 * d2),
        (r == core::cmp::Ordering::Greater) == (n1 * n1 * d1 > n2 * n2 * d2),
{
    let (h1, l1) = scaled_square(n1, d1);
    let (h2, l2) = scaled_square(n2, d2);
    proof {
        let w = word();
        let (h1, l1, h2, l2) = (h1 as int, l1 as int, h2 as int, l2 as int);
        assert(h1 < h2 ==> h1 * w + l1 < h2 * w + l2) by (nonlinear_arith)
            requires
                0 <= l1 < w,
                0 <= l2,
        ;
        assert(h2 < h1 ==> h2 * w + l2 < h1 * w + l1) by (nonlinear_arith)
            requires
                0 <= l2 < w,
                0 <= l1,
        ;
    }
    if h1 < h2 {
        core::cmp::Ordering::Less
    } else if h2 < h1 {
        core::cmp::Ordering::Greater
    } else if l1 < l2 {
        core::cmp::Ordering::Less
    } else if l2 < l1 {
        core::cmp::Ordering::Greater
    } else {
        core::cmp::Ordering::Equal
    }
}

} // verus!
