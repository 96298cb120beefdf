use vstd::prelude::*;
use vstd::arithmetic::div_mod::{
    lemma_fundamental_div_mod, lemma_fundamental_div_mod_converse, lemma_div_is_ordered,
    lemma_div_is_ordered_by_denominator,
};

verus! {

// Ratings, K and the cutoff are fixed-point numbers counted in thousandths
// of an Elo point, so 1200 Elo is stored as 1_200_000.  Match results and
// expected scores are counted in thousandths of a match point.

/// Largest magnitude a rating may take; updates clamp to this range.
pub const RATING_LIMIT: i64 = 1_000_000_000_000_000_000;

/// Rating given to a newly discovered image (1200 Elo).
pub const INITIAL_RATING: i64 = 1_200_000;

/// Default Elo step size (40 Elo).
pub const DEFAULT_K: i64 = 40_000;

/// Default viability cutoff (1100 Elo).
pub const DEFAULT_MIN_SCORE: i64 = 1_100_000;

/// The user's verdict on a presented pair.
#[derive(Clone, Copy, PartialEq, Eq, Structural, Debug)]
pub enum Judgment {
    LeftWins,
    RightWins,
    Draw,
}

/// Match result for the left image, in thousandths of a point:
/// a win counts 1000, a loss 0, a draw 500.
pub open spec fn result_left_permille(j: Judgment) -> int {
    match j {
        Judgment::LeftWins => 1000,
        Judgment::RightWins => 0,
        Judgment::Draw => 500,
    }
}

/// Match result for the right image, in thousandths of a point.
pub open spec fn result_right_permille(j: Judgment) -> int {
    1000 - result_left_permille(j)
}

pub fn result_left(j: Judgment) -> (r: u64)
    ensures
        r == result_left_permille(j),
{
    match j {
        Judgment::LeftWins => 1000,
        Judgment::RightWins => 0,
        Judgment::Draw => 500,
    }
}

/// Integer square root, rounded down.
pub open spec fn sqrt_floor(n: nat) -> nat
    decreases n,
{
    if n == 0 {
        0
    } else {
        let s = sqrt_floor((n - 1) as nat);
        if (s + 1) * (s + 1) <= n {
            (s + 1) as nat
        } else {
            s
        }
    }
}

pub proof fn lemma_sqrt_floor_bounds(n: nat)
    ensures
        sqrt_floor(n) * sqrt_floor(n) <= n,
        n < (sqrt_floor(n) + 1) * (sqrt_floor(n) + 1),
    decreases n,
{
    if n != 0 {
        lemma_sqrt_floor_bounds((n - 1) as nat);
        let s = sqrt_floor((n - 1) as nat);
        assert(s * s <= n - 1);
        assert(((n - 1) as nat) < (s + 1) * (s + 1));
        if (s + 1) * (s + 1) <= n {
            assert(sqrt_floor(n) == s + 1);
            assert(n == (s + 1) * (s + 1));
            assert((s + 1) * (s + 1) < (s + 2) * (s + 2)) by (nonlinear_arith);
        } else {
            assert(sqrt_floor(n) == s);
            assert(n < (s + 1) * (s + 1));
        }
    } else {
        assert(sqrt_floor(n) == 0);
        assert(0 * 0 == 0) by (nonlinear_arith);
        assert((0 + 1) * (0 + 1) == 1) by (nonlinear_arith);
    }
}

pub proof fn lemma_sqrt_floor_unique(n: nat, r: nat)
    requires
        r * r <= n,
        n < (r + 1) * (r + 1),
    ensures
        r == sqrt_floor(n),
{
    lemma_sqrt_floor_bounds(n);
    let s = sqrt_floor(n);
    if r < s {
        assert((r + 1) * (r + 1) <= s * s) by (nonlinear_arith)
            requires r + 1 <= s,
        ;
    }
    if s < r {
        assert((s + 1) * (s + 1) <= r * r) by (nonlinear_arith)
            requires s + 1 <= r,
        ;
    }
}

/// Integer square root by bisection.
pub fn isqrt_u128(n: u128) -> (r: u128)
    ensures
        r == sqrt_floor(n as nat),
{
    let mut lo: u128 = 0;
    let mut hi: u128 = 18_446_744_073_709_551_616;
    while lo + 1 < hi
        invariant
            lo < hi <= 18_446_744_073_709_551_616,
            (lo as nat) * (lo as nat) <= n as nat,
            (n as nat) < (hi as nat) * (hi as nat),
        decreases hi - lo,
    {
        let mid = lo + (hi - lo) / 2;
        proof {
            assert((mid as nat) * (mid as nat) <= (18_446_744_073_709_551_615 as nat)
                * (18_446_744_073_709_551_615 as nat)) by (nonlinear_arith)
                requires mid <= 18_446_744_073_709_551_615,
            ;
        }
        if mid * mid <= n {
            lo = mid;
        } else {
            hi = mid;
        }
    }
    proof {
        lemma_sqrt_floor_unique(n as nat, lo as nat);
    }
    lo
}

/// Time-decay penalty, in thousandths of an Elo point: the square root of the
/// average of the two play counts, i.e. floor(sqrt(500000 * (g1 + g2))).
pub open spec fn penalty_milli(g1: nat, g2: nat) -> nat {
    sqrt_floor(500_000 * (g1 + g2))
}

/// Largest value `penalty_milli` can take on `u64` play counts.
pub const PENALTY_MAX: u64 = 4_300_000_000_000;

pub fn compute_penalty(g1: u64, g2: u64) -> (p: u64)
    ensures
        p == penalty_milli(g1 as nat, g2 as nat),
        p <= PENALTY_MAX,
{
    let sum: u128 = g1 as u128 + g2 as u128;
    proof {
        assert(500_000 * (sum as int) <= 500_000 * 36_893_488_147_419_103_230int)
            by (nonlinear_arith)
            requires sum as int <= 36_893_488_147_419_103_230int,
        ;
    }
    let s: u128 = 500_000u128 * sum;
    let r = isqrt_u128(s);
    proof {
        lemma_sqrt_floor_bounds(s as nat);
        let pm1: nat = PENALTY_MAX as nat + 1;
        assert(pm1 * pm1 == 18_490_000_000_008_600_000_000_001) by (nonlinear_arith)
            requires pm1 == 4_300_000_000_001,
        ;
        assert(r <= PENALTY_MAX) by (nonlinear_arith)
            requires
                (r as nat) * (r as nat) <= s as nat,
                (s as nat) < pm1 * pm1,
                pm1 == PENALTY_MAX as nat + 1,
        ;
    }
    r as u64
}

/// Powers of ten.
pub open spec fn pow10(q: nat) -> nat
    decreases q,
{
    if q == 0 {
        1
    } else {
        10 * pow10((q - 1) as nat)
    }
}

fn pow10_u64(q: u64) -> (r: u64)
    requires
        q <= 7,
    ensures
        r == pow10(q as nat),
        1 <= r <= 10_000_000,
        q <= 6 ==> r <= 1_000_000,
{
    proof {
        reveal_with_fuel(pow10, 9);
    }
    if q == 0 { 1 }
    else if q == 1 { 10 }
    else if q == 2 { 100 }
    else if q == 3 { 1_000 }
    else if q == 4 { 10_000 }
    else if q == 5 { 100_000 }
    else if q == 6 { 1_000_000 }
    else { 10_000_000 }
}

/// Fixed-point multipliers: round(10^(2^-k) * 10^6) for k = 1 .. 10.
pub open spec fn frac_const(k: int) -> int {
    if k == 1 { 3_162_278 }
    else if k == 2 { 1_778_279 }
    else if k == 3 { 1_333_521 }
    else if k == 4 { 1_154_782 }
    else if k == 5 { 1_074_608 }
    else if k == 6 { 1_036_633 }
    else if k == 7 { 1_018_152 }
    else if k == 8 { 1_009_035 }
    else if k == 9 { 1_004_507 }
    else { 1_002_251 }
}

/// Weight of the bit consumed at step k of the fractional power chain.
pub open spec fn frac_weight(k: int) -> int {
    if k == 1 { 512 }
    else if k == 2 { 256 }
    else if k == 3 { 128 }
    else if k == 4 { 64 }
    else if k == 5 { 32 }
    else if k == 6 { 16 }
    else if k == 7 { 8 }
    else if k == 8 { 4 }
    else if k == 9 { 2 }
    else { 1 }
}

/// After k steps of the chain: 10^6 * 10^(consumed bits of f / 1024), rounded
/// down at every step.
pub open spec fn frac_acc(bits: int, k: int) -> int
    decreases k,
{
    if k <= 0 {
        1_000_000
    } else {
        let prev = frac_acc(bits, k - 1);
        if (bits / frac_weight(k)) % 2 == 1 {
            (prev * frac_const(k)) / 1_000_000
        } else {
            prev
        }
    }
}

proof fn lemma_mul_div_step(a: int, amax: int, c: int)
    requires
        1_000_000 <= a <= amax,
        1_000_000 <= c,
    ensures
        a <= (a * c) / 1_000_000 <= (amax * c) / 1_000_000,
{
    assert(a * 1_000_000 <= a * c <= amax * c) by (nonlinear_arith)
        requires 0 <= a <= amax, 1_000_000 <= c,
    ;
    assert((a * 1_000_000) / 1_000_000 == a) by (nonlinear_arith);
    lemma_div_is_ordered(a * 1_000_000, a * c, 1_000_000);
    lemma_div_is_ordered(a * c, amax * c, 1_000_000);
}

proof fn lemma_div_exact_million(x: int, q: int, r: int)
    requires
        0 <= r < 1_000_000,
        x == q * 1_000_000 + r,
    ensures
        x / 1_000_000 == q,
{
    lemma_fundamental_div_mod_converse(x, 1_000_000, q, r);
}

/// Expected score for a player whose opponent leads by `d` thousandths of an
/// Elo point, in thousandths of a match point: a fixed-point rendering of
/// 1000 / (1 + 10^(d / 400000)), clamped to 0 resp. 1000 far from zero.
pub open spec fn expected_permille_spec(d: int) -> int {
    if d >= 2_800_000 {
        0
    } else if d <= -2_800_000 {
        1000
    } else {
        let q = d / 400_000;
        let f = d % 400_000;
        let bits = (f * 1024) / 400_000;
        let acc = frac_acc(bits, 10);
        let t = if q >= 0 {
            acc * pow10(q as nat)
        } else {
            acc / (pow10((-q) as nat) as int)
        };
        1_000_000_000int / (1_000_000 + t)
    }
}

/// Expected score of the left image against the right one, in thousandths of
/// a match point.
/// Splits a rating gap `d` into its floor quotient and remainder by the
/// 400-Elo scale: `t.1` is the magnitude of the quotient (negated when `t.0`
/// holds), `t.2` the nonnegative remainder.
fn scale_split(d: i64) -> (t: (bool, u64, u64))
    requires
        -2_800_000 < d < 2_800_000,
    ensures
        t.1 as int == (if t.0 { -(d as int / 400_000) } else { d as int / 400_000 }),
        t.2 as int == d as int % 400_000,
        t.1 <= 7,
        !t.0 ==> t.1 <= 6,
        t.0 ==> 1 <= t.1,
        t.2 < 400_000,
{
    if d >= 0 {
        let q: u64 = (d as u64) / 400_000;
        let f: u64 = (d as u64) % 400_000;
        proof {
            lemma_fundamental_div_mod(d as int, 400_000);
            lemma_div_is_ordered(d as int, 2_799_999, 400_000);
            lemma_fundamental_div_mod_converse(2_799_999, 400_000, 6, 399_999);
        }
        (false, q, f)
    } else {
        let m: u64 = (0 - d) as u64;
        let qc: u64 = (m + 399_999) / 400_000;
        proof {
            lemma_fundamental_div_mod((m + 399_999) as int, 400_000);
            assert(qc * 400_000 >= m);
            assert(qc * 400_000 <= m + 399_999);
            lemma_div_is_ordered((m + 399_999) as int, 3_199_998, 400_000);
            lemma_fundamental_div_mod_converse(3_199_998, 400_000, 7, 399_998);
        }
        let f: u64 = qc * 400_000 - m;
        proof {
            lemma_fundamental_div_mod_converse(d as int, 400_000, -(qc as int), f as int);
        }
        (true, qc, f)
    }
}

/// One step of the fractional power chain: multiply by `c` and rescale when
/// the step's bit is set.
fn chain_step(acc: u64, c: u64, bit: bool) -> (r: u64)
    requires
        1_000_000 <= acc <= 9_977_529,
        1_000_000 <= c <= 3_162_278,
    ensures
        r as int == (if bit { (acc as int * c as int) / 1_000_000 } else { acc as int }),
        1_000_000 <= r,
        (bit ==> r as int <= (9_977_529int * c as int) / 1_000_000),
{
    if bit {
        proof {
            lemma_mul_div_step(acc as int, 9_977_529, c as int);
        }
        acc * c / 1_000_000
    } else {
        acc
    }
}

/// Runs the ten-step square-root chain for the fractional part of the
/// exponent, encoded as `bits` / 1024.
#[verifier::rlimit(100)]
#[verifier::spinoff_prover]
fn frac_chain(bits: u64) -> (acc: u64)
    ensures
        acc == frac_acc(bits as int, 10),
        1_000_000 <= acc <= 9_977_529,
{
    let ghost bi = bits as int;
    let mut acc: u64 = 1_000_000;
    assert(acc == frac_acc(bi, 0));

    acc = chain_step(acc, 3_162_278, (bits / 512) % 2 == 1);
    proof {
        lemma_div_exact_million(9_977_529int * 3_162_278, 31_551_720, 451_062);
        lemma_mul_div_step(frac_acc(bi, 0), 1_000_000, 3_162_278);
        lemma_div_exact_million(1_000_000int * 3_162_278, 3_162_278, 0);
        assert(acc == frac_acc(bi, 1) && 1_000_000 <= acc <= 3_162_278);
    }
    acc = chain_step(acc, 1_778_279, (bits / 256) % 2 == 1);
    proof {
        lemma_mul_div_step(frac_acc(bi, 1), 3_162_278, 1_778_279);
        lemma_div_exact_million(3_162_278int * 1_778_279, 5_623_412, 559_562);
        assert(acc == frac_acc(bi, 2) && 1_000_000 <= acc <= 5_623_412);
    }
    acc = chain_step(acc, 1_333_521, (bits / 128) % 2 == 1);
    proof {
        lemma_mul_div_step(frac_acc(bi, 2), 5_623_412, 1_333_521);
        lemma_div_exact_million(5_623_412int * 1_333_521, 7_498_937, 993_652);
        assert(acc == frac_acc(bi, 3) && 1_000_000 <= acc <= 7_498_937);
    }
    acc = chain_step(acc, 1_154_782, (bits / 64) % 2 == 1);
    proof {
        lemma_mul_div_step(frac_acc(bi, 3), 7_498_937, 1_154_782);
        lemma_div_exact_million(7_498_937int * 1_154_782, 8_659_637, 466_734);
        assert(acc == frac_acc(bi, 4) && 1_000_000 <= acc <= 8_659_637);
    }
    acc = chain_step(acc, 1_074_608, (bits / 32) % 2 == 1);
    proof {
        lemma_mul_div_step(frac_acc(bi, 4), 8_659_637, 1_074_608);
        lemma_div_exact_million(8_659_637int * 1_074_608, 9_305_715, 197_296);
        assert(acc == frac_acc(bi, 5) && 1_000_000 <= acc <= 9_305_715);
    }
    acc = chain_step(acc, 1_036_633, (bits / 16) % 2 == 1);
    proof {
        lemma_mul_div_step(frac_acc(bi, 5), 9_305_715, 1_036_633);
        lemma_div_exact_million(9_305_715int * 1_036_633, 9_646_611, 257_595);
        assert(acc == frac_acc(bi, 6) && 1_000_000 <= acc <= 9_646_611);
    }
    acc = chain_step(acc, 1_018_152, (bits / 8) % 2 == 1);
    proof {
        lemma_mul_div_step(frac_acc(bi, 6), 9_646_611, 1_018_152);
        lemma_div_exact_million(9_646_611int * 1_018_152, 9_821_716, 282_872);
        assert(acc == frac_acc(bi, 7) && 1_000_000 <= acc <= 9_821_716);
    }
    acc = chain_step(acc, 1_009_035, (bits / 4) % 2 == 1);
    proof {
        lemma_mul_div_step(frac_acc(bi, 7), 9_821_716, 1_009_035);
        lemma_div_exact_million(9_821_716int * 1_009_035, 9_910_455, 204_060);
        assert(acc == frac_acc(bi, 8) && 1_000_000 <= acc <= 9_910_455);
    }
    acc = chain_step(acc, 1_004_507, (bits / 2) % 2 == 1);
    proof {
        lemma_mul_div_step(frac_acc(bi, 8), 9_910_455, 1_004_507);
        lemma_div_exact_million(9_910_455int * 1_004_507, 9_955_121, 420_685);
        assert(acc == frac_acc(bi, 9) && 1_000_000 <= acc <= 9_955_121);
    }
    acc = chain_step(acc, 1_002_251, (bits / 1) % 2 == 1);
    proof {
        lemma_mul_div_step(frac_acc(bi, 9), 9_955_121, 1_002_251);
        lemma_div_exact_million(9_955_121int * 1_002_251, 9_977_529, 977_371);
        assert(acc == frac_acc(bi, 10) && 1_000_000 <= acc <= 9_977_529);
    }
    acc
}

/// Expected score of the left image against the right one, in thousandths of
/// a match point.
#[verifier::rlimit(60)]
pub fn expected_left_permille(r1: i64, r2: i64) -> (e: u64)
    requires
        -RATING_LIMIT <= r1 <= RATING_LIMIT,
        -RATING_LIMIT <= r2 <= RATING_LIMIT,
    ensures
        e == expected_permille_spec(r2 - r1),
        e <= 1000,
{
    let d: i64 = r2 - r1;
    if d >= 2_800_000 {
        return 0;
    }
    if d <= -2_800_000 {
        return 1000;
    }
    let (q_neg, q_mag, f) = scale_split(d);
    let bits: u64 = (f * 1024) / 400_000;
    let acc: u64 = frac_chain(bits);
    let t: u64;
    if !q_neg {
        let p = pow10_u64(q_mag);
        proof {
            assert(acc * p <= 9_977_529 * 1_000_000) by (nonlinear_arith)
                requires acc <= 9_977_529, 0 <= p <= 1_000_000,
            ;
        }
        t = acc * p;
    } else {
        let p = pow10_u64(q_mag);
        t = acc / p;
    }
    let e: u64 = 1_000_000_000 / (1_000_000 + t);
    proof {
        lemma_div_is_ordered_by_denominator(1_000_000_000, 1_000_000, 1_000_000 + t as int);
        lemma_fundamental_div_mod_converse(1_000_000_000, 1_000_000, 1000, 0);
    }
    e
}

/// Signed division by 1000, rounding toward zero.
pub open spec fn div1000_trunc(x: int) -> int {
    if x >= 0 {
        x / 1000
    } else {
        -((-x) / 1000)
    }
}

/// Clamp a value into the representable rating range.
pub open spec fn clamp_rating(x: int) -> int {
    if x > RATING_LIMIT as int {
        RATING_LIMIT as int
    } else if x < -(RATING_LIMIT as int) {
        -(RATING_LIMIT as int)
    } else {
        x
    }
}

/// The post-match rating of one side: its old rating, plus K times the gap
/// between its result and its expected score, minus its loss share of the
/// time-decay penalty, clamped into the representable range.
pub open spec fn new_rating_spec(r: int, own_res: int, e: int, pen: int, k: int) -> int {
    clamp_rating(r + div1000_trunc(k * (own_res - e)) - ((1000 - own_res) * pen) / 1000)
}

/// New rating of the left image after judgment `j` at step size `k`.
pub open spec fn new_left_spec(r1: int, r2: int, g1: nat, g2: nat, j: Judgment, k: int) -> int {
    new_rating_spec(
        r1,
        result_left_permille(j),
        expected_permille_spec(r2 - r1),
        penalty_milli(g1, g2) as int,
        k,
    )
}

/// New rating of the right image after judgment `j` at step size `k`.
pub open spec fn new_right_spec(r1: int, r2: int, g1: nat, g2: nat, j: Judgment, k: int) -> int {
    new_rating_spec(
        r2,
        result_right_permille(j),
        expected_permille_spec(r1 - r2),
        penalty_milli(g1, g2) as int,
        k,
    )
}

fn side_update(r: i64, own_res: u64, e: u64, pen: u64, k: i64) -> (nr: i64)
    requires
        -RATING_LIMIT <= r <= RATING_LIMIT,
        own_res <= 1000,
        e <= 1000,
        pen <= PENALTY_MAX,
    ensures
        nr == new_rating_spec(r as int, own_res as int, e as int, pen as int, k as int),
        -RATING_LIMIT <= nr <= RATING_LIMIT,
{
    let diff_pos: bool = own_res >= e;
    let dmag: u64 = if diff_pos { own_res - e } else { e - own_res };
    let kmag: u128 = if k >= 0 { k as u128 } else { (-(k as i128)) as u128 };
    proof {
        assert(kmag * (dmag as u128) <= kmag * 1000) by (nonlinear_arith)
            requires dmag <= 1000, kmag >= 0,
        ;
        assert(kmag * 1000 <= 9_223_372_036_854_775_808 * 1000) by (nonlinear_arith)
            requires kmag <= 9_223_372_036_854_775_808,
        ;
    }
    let gmag: u128 = kmag * (dmag as u128) / 1000;
    let gain_pos: bool = (k >= 0) == diff_pos;
    proof {
        assert((k as int) * (own_res as int - e as int) == if gain_pos {
            (kmag as int) * (dmag as int)
        } else {
            -((kmag as int) * (dmag as int))
        }) by (nonlinear_arith)
            requires
                kmag as int == if k >= 0 { k as int } else { -(k as int) },
                dmag as int == if own_res >= e {
                    own_res as int - e as int
                } else {
                    e as int - own_res as int
                },
                gain_pos == ((k >= 0) == (own_res >= e)),
        ;
        assert(div1000_trunc((k as int) * (own_res as int - e as int)) == if gain_pos {
            gmag as int
        } else {
            -(gmag as int)
        });
    }
    proof {
        assert((1000 - own_res as int) * (pen as int) <= 1000 * (PENALTY_MAX as int))
            by (nonlinear_arith)
            requires own_res <= 1000, pen <= PENALTY_MAX,
        ;
    }
    let pterm: u128 = ((1000 - own_res) as u128) * (pen as u128) / 1000;
    proof {
        lemma_div_is_ordered(((1000 - own_res as int) * (pen as int)), 1000 * (PENALTY_MAX as int), 1000);
        lemma_fundamental_div_mod_converse(1000 * (PENALTY_MAX as int), 1000, PENALTY_MAX as int, 0);
    }
    let base: i128 = r as i128;
    let signed_gain: i128 = if gain_pos { gmag as i128 } else { 0 - (gmag as i128) };
    let val: i128 = base + signed_gain - pterm as i128;
    if val > RATING_LIMIT as i128 {
        RATING_LIMIT
    } else if val < 0 - (RATING_LIMIT as i128) {
        0 - RATING_LIMIT
    } else {
        val as i64
    }
}

/// New ratings of both images after one comparison: a pure function of the
/// two stored ratings, the two play counts, the judgment and the step size.
pub fn update_ratings(r1: i64, g1: u64, r2: i64, g2: u64, j: Judgment, k: i64) -> (nr: (i64, i64))
    requires
        -RATING_LIMIT <= r1 <= RATING_LIMIT,
        -RATING_LIMIT <= r2 <= RATING_LIMIT,
    ensures
        nr.0 == new_left_spec(r1 as int, r2 as int, g1 as nat, g2 as nat, j, k as int),
        nr.1 == new_right_spec(r1 as int, r2 as int, g1 as nat, g2 as nat, j, k as int),
        -RATING_LIMIT <= nr.0 <= RATING_LIMIT,
        -RATING_LIMIT <= nr.1 <= RATING_LIMIT,
{
    let e1 = expected_left_permille(r1, r2);
    let e2 = expected_left_permille(r2, r1);
    let pen = compute_penalty(g1, g2);
    let res1 = result_left(j);
    let res2 = 1000 - res1;
    let nr1 = side_update(r1, res1, e1, pen, k);
    let nr2 = side_update(r2, res2, e2, pen, k);
    (nr1, nr2)
}

/// The expected score of either side of an evenly rated pair is exactly one
/// half.
pub proof fn lemma_expected_even_pair()
    ensures
        expected_permille_spec(0) == 500,
{
    reveal_with_fuel(frac_acc, 12);
    reveal_with_fuel(pow10, 2);
    lemma_fundamental_div_mod_converse(0, 400_000, 0, 0);
    assert(0int * 1024 == 0) by (nonlinear_arith);
    lemma_fundamental_div_mod_converse(0, 512, 0, 0);
    lemma_fundamental_div_mod_converse(0, 256, 0, 0);
    lemma_fundamental_div_mod_converse(0, 128, 0, 0);
    lemma_fundamental_div_mod_converse(0, 64, 0, 0);
    lemma_fundamental_div_mod_converse(0, 32, 0, 0);
    lemma_fundamental_div_mod_converse(0, 16, 0, 0);
    lemma_fundamental_div_mod_converse(0, 8, 0, 0);
    lemma_fundamental_div_mod_converse(0, 4, 0, 0);
    lemma_fundamental_div_mod_converse(0, 2, 0, 0);
    lemma_fundamental_div_mod_converse(0, 1, 0, 0);
    assert(frac_acc(0, 10) == 1_000_000);
    assert(1_000_000int * (pow10(0) as int) == 1_000_000) by (nonlinear_arith)
        requires pow10(0) == 1,
    ;
    lemma_fundamental_div_mod_converse(1_000_000_000, 2_000_000, 500, 0);
    assert(expected_permille_spec(0) == 500);
}

/// A pair that has never played incurs no time-decay penalty.
pub proof fn lemma_no_penalty_unplayed()
    ensures
        penalty_milli(0, 0) == 0,
{
    assert(500_000 * (0 + 0) == 0) by (nonlinear_arith);
}

/// A draw between two images of equal rating that have never played leaves
/// both ratings exactly unchanged.
pub proof fn lemma_draw_even_pair_unchanged(r: int, k: int)
    requires
        -(RATING_LIMIT as int) <= r <= RATING_LIMIT as int,
    ensures
        new_left_spec(r, r, 0, 0, Judgment::Draw, k) == r,
        new_right_spec(r, r, 0, 0, Judgment::Draw, k) == r,
{
    lemma_expected_even_pair();
    lemma_no_penalty_unplayed();
    assert(k * (500 - 500) == 0) by (nonlinear_arith);
    assert(div1000_trunc(0) == 0);
    assert(((1000 - 500) * 0) / 1000 == 0);
}

/// A win for the left image of an evenly rated, never-played pair strictly
/// raises the winner's rating and strictly lowers the loser's, for any step
/// size of at least two thousandths of an Elo point whose application keeps
/// both ratings inside the representable range.
pub proof fn lemma_left_win_even_pair_moves(r: int, k: int)
    requires
        2 <= k,
        -(RATING_LIMIT as int) + k <= r <= RATING_LIMIT as int - k,
    ensures
        new_left_spec(r, r, 0, 0, Judgment::LeftWins, k) > r,
        new_right_spec(r, r, 0, 0, Judgment::LeftWins, k) < r,
{
    lemma_expected_even_pair();
    lemma_no_penalty_unplayed();
    let q = k / 2;
    lemma_fundamental_div_mod(k, 2);
    assert(k * 500 == 1000 * q + (k % 2) * 500) by (nonlinear_arith)
        requires k == 2 * q + k % 2,
    ;
    lemma_fundamental_div_mod_converse(k * 500, 1000, q, (k % 2) * 500);
    assert((k * 500) / 1000 == q);
    assert(k * (1000 - 500) == k * 500) by (nonlinear_arith);
    assert(k * (0 - 500) == -(k * 500)) by (nonlinear_arith);
    assert(div1000_trunc(k * 500) == q);
    assert(q >= 1);
    assert(((1000 - 1000) * 0) / 1000 == 0);
    assert(((1000 - 0) * 0) / 1000 == 0);
}

} // verus!
