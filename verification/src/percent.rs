//! The success rate in whole percent, as the agent prints it: the `f64`
//! quotient `succeeded / executed`, times 100, shown with `{:.0}`. The two
//! IEEE-754 binary64 roundings and the final rounding are carried out exactly
//! in integers.

use vstd::prelude::*;

verus! {

/// `2^k`.
pub open spec fn two_to(k: nat) -> nat
    decreases k,
{
    if k == 0 {
        1
    } else {
        2 * two_to((k - 1) as nat)
    }
}

/// `a / b` rounded to the nearest integer, ties to even.
pub open spec fn round_half_even(a: nat, b: nat) -> nat {
    let q = a / b;
    let r = a % b;
    if 2 * r > b || (2 * r == b && q % 2 == 1) {
        q + 1
    } else {
        q
    }
}

/// How many times `x` doubles before it reaches `target` (0 for `x == 0`).
pub open spec fn doublings(x: nat, target: nat) -> nat
    decreases (if x < target {
        target - x
    } else {
        0
    }),
{
    if x == 0 || x >= target {
        0
    } else {
        1 + doublings(2 * x, target)
    }
}

/// `{:.0}` of `s as f64 / e as f64 * 100.0`: the quotient rounded to the
/// nearest double (a 53-bit significand `m` at scale `2^-k`), the product
/// `m * 100 / 2^k` rounded to the nearest double (dropping `sh` low bits),
/// then rounded to an integer, ties to even at each step; 0 when `e` is 0.
pub open spec fn percent_of(s: nat, e: nat) -> nat {
    if e == 0 || s == 0 {
        0
    } else {
        let k = doublings(s, 4503599627370496 * e);
        let m = round_half_even(s * two_to(k), e);
        let p = m * 100;
        let sh = doublings(9007199254740992, p + 1);
        let m2 = round_half_even(p, two_to(sh));
        if k >= sh {
            round_half_even(m2, two_to((k - sh) as nat))
        } else {
            m2 * two_to((sh - k) as nat)
        }
    }
}

fn round_div(a: u128, b: u128) -> (r: u128)
    requires
        b > 0,
        a < 0x1_0000_0000_0000_0000_0000_0000_0000,
        b < 0x1_0000_0000_0000_0000_0000_0000_0000,
    ensures
        r == round_half_even(a as nat, b as nat),
{
    let q = a / b;
    let r = a % b;
    assert(q <= a) by (nonlinear_arith)
        requires
            q == a / b,
            b > 0,
    ;
    if 2 * r > b || (2 * r == b && q % 2 == 1) {
        q + 1
    } else {
        q
    }
}

proof fn lemma_two_to_pos(k: nat)
    ensures
        two_to(k) >= 1,
    decreases k,
{
    if k > 0 {
        lemma_two_to_pos((k - 1) as nat);
    }
}

fn powers_of_two(n: u128) -> (d: u128)
    requires
        two_to(n as nat) < 0x1_0000_0000_0000_0000_0000_0000_0000,
    ensures
        d == two_to(n as nat),
{
    let mut d: u128 = 1;
    let mut j: u128 = 0;
    while j < n
        invariant
            j <= n,
            d == two_to(j as nat),
            two_to(n as nat) < 0x1_0000_0000_0000_0000_0000_0000_0000,
        decreases n - j,
    {
        proof {
            lemma_two_to_le((j + 1) as nat, n as nat);
        }
        d = d * 2;
        j = j + 1;
    }
    d
}

/// The quotient `s / e` (both positive) rounded to a double: the 53-bit
/// significand `m` (2^52 <= m <= 2^53) and the scale `k`, value `m / 2^k`.
fn rounded_quotient(s: u32, e: u32) -> (r: (u128, u128))
    requires
        s > 0,
        e > 0,
    ensures
        r.1 == doublings(s as nat, 4503599627370496 * (e as nat)),
        r.0 == round_half_even(s as nat * two_to(r.1 as nat), e as nat),
        4503599627370496 <= r.0 <= 9007199254740992,
        two_to(r.1 as nat) < 0x1_0000_0000_0000_0000_0000_0000,
{
    let a = s as u128;
    let b = e as u128;
    let target: u128 = 4503599627370496 * b;
    let mut cur: u128 = a;
    let mut k: u128 = 0;
    assert(two_to(0) == 1);
    assert(cur == a * two_to(0));
    while cur < target
        invariant
            1 <= a <= 0xffff_ffff,
            1 <= b <= 0xffff_ffff,
            target == 4503599627370496 * b,
            cur == a * two_to(k as nat),
            cur >= 1,
            cur < 2 * target,
            k <= cur,
            doublings(a as nat, target as nat) == k + doublings(cur as nat, target as nat),
        decreases (if cur < target {
            target - cur
        } else {
            0
        }),
    {
        assert(cur * 2 == a * two_to((k + 1) as nat)) by (nonlinear_arith)
            requires
                cur == a * two_to(k as nat),
                two_to((k + 1) as nat) == 2 * two_to(k as nat),
        ;
        cur = cur * 2;
        k = k + 1;
    }
    assert(cur >= two_to(k as nat)) by (nonlinear_arith)
        requires
            cur == a * two_to(k as nat),
            a >= 1,
    ;
    let m = round_div(cur, b);
    assert(m <= 9007199254740992) by (nonlinear_arith)
        requires
            cur < 9007199254740992 * b,
            m <= cur / b + 1,
            b >= 1,
    ;
    assert(m >= 4503599627370496) by (nonlinear_arith)
        requires
            cur >= 4503599627370496 * b,
            m >= cur / b,
            b >= 1,
    ;
    (m, k)
}

/// `s as f64 / e as f64 * 100.0`, formatted with `{:.0}`, as a number.
pub fn float_percent(s: u32, e: u32) -> (p: u64)
    ensures
        p == percent_of(s as nat, e as nat),
{
    if e == 0 || s == 0 {
        return 0;
    }
    let (m, k) = rounded_quotient(s, e);
    // The product's rounding.
    let p: u128 = m * 100;
    let mut limit: u128 = 9007199254740992;
    let mut unit: u128 = 1;
    let mut sh: u128 = 0;
    assert(doublings(9007199254740992, (p + 1) as nat) == sh + doublings(limit as nat, (p + 1) as nat));
    while limit < p + 1
        invariant
            p <= 900719925474099200,
            limit == 9007199254740992 * unit,
            unit == two_to(sh as nat),
            unit >= 1,
            sh == 0 || limit <= 2 * (p + 1),
            sh <= unit,
            doublings(9007199254740992, (p + 1) as nat) == sh + doublings(
                limit as nat,
                (p + 1) as nat,
            ),
        decreases (if limit < p + 1 {
            p + 1 - limit
        } else {
            0
        }),
    {
        limit = limit * 2;
        unit = unit * 2;
        sh = sh + 1;
    }
    assert(sh == 0 ==> unit == 1) by {
        if sh == 0 {
            assert(two_to(0) == 1);
        }
    }
    let m2 = round_div(p, unit);
    assert(m2 <= 9007199254740992) by (nonlinear_arith)
        requires
            p < 9007199254740992 * unit,
            m2 <= p / unit + 1,
            unit >= 1,
    ;
    assert(m2 <= p / unit + 1);
    if k >= sh {
        proof {
            lemma_two_to_le((k - sh) as nat, k as nat);
        }
        assert(two_to((k - sh) as nat) < 0x1_0000_0000_0000_0000_0000_0000_0000);
        let d = powers_of_two(k - sh);
        proof {
            lemma_two_to_pos((k - sh) as nat);
        }
        let r = round_div(m2, d);
        assert(r <= 9007199254740993) by (nonlinear_arith)
            requires
                r <= m2 / d + 1,
                m2 <= 9007199254740992,
                d >= 1,
        ;
        assert(r <= m2 / d + 1);
        r as u64
    } else {
        proof {
            lemma_two_to_le((sh - k) as nat, sh as nat);
        }
        assert(unit <= 256) by (nonlinear_arith)
            requires
                sh == 0 || limit <= 2 * (p + 1),
                sh == 0 ==> unit == 1,
                limit == 9007199254740992 * unit,
                p <= 900719925474099200,
        ;
        let d = powers_of_two(sh - k);
        assert(m2 * d <= 9007199254740992 * 256) by (nonlinear_arith)
            requires
                m2 <= 9007199254740992,
                d <= 256,
        ;
        (m2 * d) as u64
    }
}

/// The double nearest the rate `s / e`, as significand and scale (value
/// `m / 2^k`), normalized to `2^52 <= m < 2^53`; `(0, 0)` for a zero rate
/// or a blueprint that never ran (whose rate is 0.0).
pub open spec fn rate_double(s: nat, e: nat) -> (nat, nat) {
    if e == 0 || s == 0 {
        (0, 0)
    } else {
        let k = doublings(s, 4503599627370496 * e);
        let m = round_half_even(s * two_to(k), e);
        if m == 9007199254740992 {
            (4503599627370496, (k - 1) as nat)
        } else {
            (m, k)
        }
    }
}

/// The double `x` is at most the double `y` (each `m / 2^k`).
pub open spec fn double_le(x: (nat, nat), y: (nat, nat)) -> bool {
    x.0 * two_to(y.1) <= y.0 * two_to(x.1)
}

/// Zero, or a normalized significand.
pub open spec fn normal_or_zero(x: (nat, nat)) -> bool {
    x.0 == 0 || 4503599627370496 <= x.0 < 9007199254740992
}

/// The order of normalized doubles: a larger scale means a smaller value;
/// at equal scale, the significands decide; zero is least.
pub open spec fn lex_le(x: (nat, nat), y: (nat, nat)) -> bool {
    x.0 == 0 || (y.0 != 0 && (x.1 > y.1 || (x.1 == y.1 && x.0 <= y.0)))
}

/// On zero and normalized doubles, comparing values is comparing scale,
/// then significand.
pub proof fn lemma_double_le_lex(x: (nat, nat), y: (nat, nat))
    requires
        normal_or_zero(x),
        normal_or_zero(y),
    ensures
        double_le(x, y) == lex_le(x, y),
{
    lemma_two_to_pos(x.1);
    lemma_two_to_pos(y.1);
    let tx = two_to(x.1);
    let ty = two_to(y.1);
    if x.0 == 0 {
        assert(x.0 * ty == 0);
        assert(y.0 * tx >= 0) by (nonlinear_arith);
    } else if y.0 == 0 {
        assert(y.0 * tx == 0);
        assert(x.0 * ty >= 1) by (nonlinear_arith)
            requires
                x.0 >= 1,
                ty >= 1,
        ;
    } else if x.1 > y.1 {
        lemma_two_to_le(y.1 + 1, x.1);
        assert(two_to(y.1 + 1) == 2 * ty);
        assert(x.0 * ty < y.0 * tx) by (nonlinear_arith)
            requires
                x.0 < 9007199254740992,
                y.0 >= 4503599627370496,
                tx >= 2 * ty,
                ty >= 1,
        ;
    } else if x.1 < y.1 {
        lemma_two_to_le(x.1 + 1, y.1);
        assert(two_to(x.1 + 1) == 2 * tx);
        assert(y.0 * tx < x.0 * ty) by (nonlinear_arith)
            requires
                y.0 < 9007199254740992,
                x.0 >= 4503599627370496,
                ty >= 2 * tx,
                tx >= 1,
        ;
    } else {
        assert(tx == ty);
        assert((x.0 * ty <= y.0 * tx) == (x.0 <= y.0)) by (nonlinear_arith)
            requires
                tx == ty,
                ty >= 1,
        ;
    }
}

/// Comparing doubles by value is transitive.
pub proof fn lemma_double_le_trans(x: (nat, nat), y: (nat, nat), z: (nat, nat))
    requires
        double_le(x, y),
        double_le(y, z),
    ensures
        double_le(x, z),
{
    lemma_two_to_pos(x.1);
    lemma_two_to_pos(y.1);
    lemma_two_to_pos(z.1);
    let tx = two_to(x.1);
    let ty = two_to(y.1);
    let tz = two_to(z.1);
    assert(x.0 * ty * tz <= y.0 * tx * tz) by (nonlinear_arith)
        requires
            x.0 * ty <= y.0 * tx,
    ;
    assert(y.0 * tz * tx <= z.0 * ty * tx) by (nonlinear_arith)
        requires
            y.0 * tz <= z.0 * ty,
    ;
    assert(x.0 * tz * ty <= z.0 * tx * ty) by (nonlinear_arith)
        requires
            x.0 * ty * tz <= y.0 * tx * tz,
            y.0 * tz * tx <= z.0 * ty * tx,
    ;
    assert(x.0 * tz <= z.0 * tx) by (nonlinear_arith)
        requires
            x.0 * tz * ty <= z.0 * tx * ty,
            ty >= 1,
    ;
}

/// Any two doubles compare one way or the other.
pub proof fn lemma_double_le_total(x: (nat, nat), y: (nat, nat))
    ensures
        double_le(x, y) || double_le(y, x),
{
}

/// The double nearest the rate `s / e` (see `rate_double`).
pub fn success_rate_double(s: u32, e: u32) -> (r: (u128, u128))
    ensures
        (r.0 as nat, r.1 as nat) == rate_double(s as nat, e as nat),
        normal_or_zero((r.0 as nat, r.1 as nat)),
{
    if e == 0 || s == 0 {
        return (0, 0);
    }
    let (m, k) = rounded_quotient(s, e);
    if m == 9007199254740992 {
        if k == 0 {
            proof {
                // At scale 0 the quotient would be at least 2^52.
                assert(doublings(s as nat, 4503599627370496 * (e as nat)) > 0);
            }
        }
        (4503599627370496, k - 1)
    } else {
        (m, k)
    }
}

/// Whether the double `x` is at most the double `y`.
pub fn double_at_most(x: (u128, u128), y: (u128, u128)) -> (b: bool)
    requires
        normal_or_zero((x.0 as nat, x.1 as nat)),
        normal_or_zero((y.0 as nat, y.1 as nat)),
    ensures
        b == double_le((x.0 as nat, x.1 as nat), (y.0 as nat, y.1 as nat)),
{
    proof {
        lemma_double_le_lex((x.0 as nat, x.1 as nat), (y.0 as nat, y.1 as nat));
    }
    x.0 == 0 || (y.0 != 0 && (x.1 > y.1 || (x.1 == y.1 && x.0 <= y.0)))
}

proof fn lemma_two_to_le(k: nat, n: nat)
    requires
        k <= n,
    ensures
        two_to(k) <= two_to(n),
    decreases n,
{
    if n > k {
        lemma_two_to_le(k, (n - 1) as nat);
    }
}

} // verus!
