//! Fixed-point Shannon entropy keys. A cell's entropy over option
//! frequencies `c_i` with total `t` is `lg t - (1/t) * sum(c_i * lg c_i)`;
//! with `lg` in 1/65536 fixed point the solver compares the exact
//! rationals `(t*lg t - sum) / t` with cross multiplication, so equal
//! option sets always tie exactly.

use vstd::prelude::*;
use vstd::arithmetic::power2::{
    pow2, lemma_pow2_unfold, lemma_pow2_strictly_increases, lemma_pow2_pos, lemma2_to64,
};
use vstd::arithmetic::div_mod::{
    lemma_fundamental_div_mod, lemma_div_is_ordered, lemma_div_multiples_vanish,
    lemma_multiply_divide_lt,
};
use crate::tile::{Tile, freq_sum_of};

verus! {

/// Floor of the base-2 logarithm (0 below 2).
pub open spec fn spec_floor_log2(x: int) -> nat
    decreases x,
{
    if x <= 1 {
        0
    } else {
        (1 + spec_floor_log2(x / 2)) as nat
    }
}

/// `x` lies between consecutive powers of two at its floor log.
pub proof fn lemma_floor_log2_range(x: int)
    requires
        1 <= x,
    ensures
        pow2(spec_floor_log2(x)) <= x < pow2(spec_floor_log2(x) + 1),
    decreases x,
{
    lemma2_to64();
    if x <= 1 {
    } else {
        lemma_floor_log2_range(x / 2);
        let k = spec_floor_log2(x / 2);
        lemma_pow2_unfold(k + 1);
        lemma_pow2_unfold(k + 2);
        lemma_fundamental_div_mod(x, 2);
    }
}

/// Below `2^n` the floor log is below `n`.
pub proof fn lemma_floor_log2_lt(x: int, n: nat)
    requires
        1 <= x,
        x < pow2(n),
    ensures
        spec_floor_log2(x) < n,
{
    lemma_floor_log2_range(x);
    let f = spec_floor_log2(x);
    if f >= n {
        if f > n {
            lemma_pow2_strictly_increases(n, f);
        }
        assert(pow2(n) <= pow2(f));
        assert(false);
    }
}

/// The fractional bits of the base-2 logarithm of `y/65536`, extracted
/// most significant first by repeated squaring, `n` bits in all.
pub open spec fn lg_frac(y: int, n: nat) -> int
    decreases n,
{
    if n == 0 {
        0
    } else {
        let sq = (y * y) / 65536;
        if sq >= 131072 {
            pow2((n - 1) as nat) + lg_frac(sq / 2, (n - 1) as nat)
        } else {
            lg_frac(sq, (n - 1) as nat)
        }
    }
}

pub proof fn lemma_lg_frac_bound(y: int, n: nat)
    ensures
        0 <= lg_frac(y, n) < pow2(n),
    decreases n,
{
    lemma_pow2_pos(n);
    if n > 0 {
        let sq = (y * y) / 65536;
        lemma_lg_frac_bound(sq / 2, (n - 1) as nat);
        lemma_lg_frac_bound(sq, (n - 1) as nat);
        lemma_pow2_unfold(n);
    }
}

/// The normalized mantissa of `x`: `x * 65536 / 2^floor_log2(x)`,
/// which lies in `[65536, 131072)`.
pub open spec fn spec_norm(x: int) -> int {
    x * 65536 / (pow2(spec_floor_log2(x)) as int)
}

/// The fixed-point base-2 logarithm: integer part in the high bits,
/// 16 fractional bits extracted from the normalized mantissa.
pub open spec fn spec_lg(x: int) -> int {
    spec_floor_log2(x) * 65536 + lg_frac(spec_norm(x), 16)
}

/// For inputs up to `u32::MAX` the fixed-point logarithm stays below
/// `2^21`.
pub proof fn lemma_spec_lg_bound(x: int)
    requires
        1 <= x <= u32::MAX,
    ensures
        0 <= spec_lg(x) < 0x200000,
{
    lemma2_to64();
    lemma_floor_log2_lt(x, 32);
    lemma_lg_frac_bound(spec_norm(x), 16);
    assert(spec_floor_log2(x) * 65536 <= 31 * 65536) by (nonlinear_arith)
        requires
            spec_floor_log2(x) <= 31,
    ;
}

/// Computes `2^k`.
pub fn pow2_u64(k: u64) -> (r: u64)
    requires
        k <= 63,
    ensures
        r as nat == pow2(k as nat),
{
    let mut r: u64 = 1;
    let mut i: u64 = 0;
    proof {
        lemma2_to64();
    }
    while i < k
        invariant
            i <= k,
            k <= 63,
            r as nat == pow2(i as nat),
        decreases k - i,
    {
        proof {
            lemma2_to64();
            vstd::arithmetic::power2::lemma2_to64_rest();
            lemma_pow2_strictly_increases((i + 1) as nat, 64);
            lemma_pow2_unfold((i + 1) as nat);
        }
        r = r * 2;
        i += 1;
    }
    r
}

/// Computes the floor of the base-2 logarithm.
pub fn floor_log2_u64(x: u64) -> (k: u64)
    requires
        1 <= x,
    ensures
        k as nat == spec_floor_log2(x as int),
        k <= 63,
{
    proof {
        lemma2_to64();
        vstd::arithmetic::power2::lemma2_to64_rest();
        lemma_floor_log2_lt(x as int, 64);
    }
    let mut k: u64 = 0;
    let mut y: u64 = x;
    while y >= 2
        invariant
            1 <= y,
            spec_floor_log2(x as int) == k + spec_floor_log2(y as int),
            spec_floor_log2(x as int) <= 63,
        decreases y,
    {
        y = y / 2;
        k += 1;
    }
    k
}

/// Computes the fixed-point base-2 logarithm `spec_lg`.
pub fn lg_fixed(x: u64) -> (r: u64)
    requires
        1 <= x,
    ensures
        r as int == spec_lg(x as int),
        0 <= r,
{
    let k = floor_log2_u64(x);
    let p = pow2_u64(k);
    proof {
        lemma_floor_log2_range(x as int);
        lemma_pow2_pos(k as nat);
        assert((x as int) * 65536 <= 0x10000000000000000 * 65536) by (nonlinear_arith)
            requires
                (x as int) <= 0x10000000000000000,
        ;
        // lower bound of the normalized mantissa
        assert((p as int) * 65536 <= (x as int) * 65536) by (nonlinear_arith)
            requires
                (p as int) <= (x as int),
        ;
        lemma_div_is_ordered((p as int) * 65536, (x as int) * 65536, p as int);
        assert(((p as int) * 65536) / (p as int) == 65536) by {
            lemma_div_multiples_vanish(65536, p as int);
        }
        // upper bound of the normalized mantissa
        lemma_pow2_unfold(k as nat + 1);
        assert((x as int) * 65536 < (p as int) * 131072) by (nonlinear_arith)
            requires
                (x as int) < 2 * (p as int),
        ;
        lemma_multiply_divide_lt((x as int) * 65536, p as int, 131072);
    }
    let y0: u128 = ((x as u128) * 65536) / (p as u128);
    let ghost y0i = y0 as int;
    let mut y: u128 = y0;
    let mut frac: u64 = 0;
    let mut i: u64 = 0;
    proof {
        lemma2_to64();
    }
    while i < 16
        invariant
            i <= 16,
            65536 <= y < 131072,
            frac < pow2(i as nat),
            lg_frac(y0i, 16) == frac * pow2((16 - i) as nat) + lg_frac(y as int, (16 - i) as nat),
        decreases 16 - i,
    {
        proof {
            lemma2_to64();
            let yi = y as int;
            assert(65536 * 65536 <= yi * yi < 131072 * 131072) by (nonlinear_arith)
                requires
                    65536 <= yi < 131072,
            ;
        }
        let sq: u128 = (y * y) / 65536;
        proof {
            let yi = y as int;
            assert(65536 * 65536 <= yi * yi < 131072 * 131072) by (nonlinear_arith)
                requires
                    65536 <= yi < 131072,
            ;
            assert((65536int * 65536int) / 65536int <= (yi * yi) / 65536) by {
                lemma_div_is_ordered(65536int * 65536int, yi * yi, 65536int);
            }
            assert((65536int * 65536int) / 65536int == 65536int) by {
                lemma_div_multiples_vanish(65536, 65536);
            }
            lemma_multiply_divide_lt(yi * yi, 65536, 262144);
            // unfold one digit of the spec recursion
            assert(pow2((16 - i) as nat) == 2 * pow2((15 - i) as nat)) by {
                lemma_pow2_unfold((16 - i) as nat);
            }
        }
        let ghost fr0 = frac as int;
        let ghost rem = (16 - i) as nat;
        if sq >= 131072 {
            y = sq / 2;
            frac = frac * 2 + 1;
            proof {
                lemma_pow2_pos((15 - i) as nat);
                assert(lg_frac(y0i, 16) == (2 * fr0 + 1) * pow2((15 - i) as nat) + lg_frac(
                    y as int,
                    (15 - i) as nat,
                )) by (nonlinear_arith)
                    requires
                        lg_frac(y0i, 16) == fr0 * pow2(rem) + lg_frac((sq as int) / 2, (rem - 1) as nat)
                            + pow2((rem - 1) as nat),
                        pow2(rem) == 2 * pow2((rem - 1) as nat),
                        rem == 16 - i,
                        y as int == (sq as int) / 2,
                ;
            }
        } else {
            y = sq;
            frac = frac * 2;
            proof {
                assert(lg_frac(y0i, 16) == (2 * fr0) * pow2((15 - i) as nat) + lg_frac(
                    y as int,
                    (15 - i) as nat,
                )) by (nonlinear_arith)
                    requires
                        lg_frac(y0i, 16) == fr0 * pow2(rem) + lg_frac(sq as int, (rem - 1) as nat),
                        pow2(rem) == 2 * pow2((rem - 1) as nat),
                        rem == 16 - i,
                        y as int == sq as int,
                ;
            }
        }
        i += 1;
    }
    proof {
        lemma2_to64();
        assert(i == 16);
        assert(pow2((16 - i) as nat) == 1);
        assert(lg_frac(y as int, (16 - i) as nat) == 0);
        assert(lg_frac(y0i, 16) == frac * 1 + 0);
        assert(lg_frac(y0i, 16) == frac);
        lemma_lg_frac_bound(y0i, 16);
    }
    k * 65536 + frac
}

/// The entropy key of a cell: the total `t` of its option frequencies,
/// `t * lg t`, and the sum of `c * lg c` over the option frequencies,
/// in 1/65536 fixed point. The cell's entropy is the exact rational
/// `(t_lg_t - s) / t` (up to the fixed-point scale); smaller means a
/// more decided cell.
#[derive(Clone, Copy, PartialEq, Eq, Structural, Debug)]
pub struct EntropyKey {
    pub t: u64,
    pub t_lg_t: u64,
    pub s: u64,
}

/// Bounds under which keys can be compared without overflow.
pub open spec fn key_bounds(k: EntropyKey) -> bool {
    &&& 1 <= k.t <= u32::MAX
    &&& k.t_lg_t <= 0x40000000000000
    &&& k.s <= 0x40000000000000
}

/// Exact rational comparison `entropy(a) < entropy(b)`.
pub open spec fn spec_key_lt(a: EntropyKey, b: EntropyKey) -> bool {
    a.t_lg_t * b.t + b.s * a.t < b.t_lg_t * a.t + a.s * b.t
}

/// Exact rational comparison `entropy(a) == entropy(b)`.
pub open spec fn spec_key_eq(a: EntropyKey, b: EntropyKey) -> bool {
    a.t_lg_t * b.t + b.s * a.t == b.t_lg_t * a.t + a.s * b.t
}

proof fn lemma_key_products_bounded(a: EntropyKey, b: EntropyKey)
    requires
        key_bounds(a),
        key_bounds(b),
    ensures
        a.t_lg_t * b.t + b.s * a.t <= 0x80000000000000000000000,
        b.t_lg_t * a.t + a.s * b.t <= 0x80000000000000000000000,
{
    assert(a.t_lg_t * b.t <= 0x40000000000000 * 0x100000000) by (nonlinear_arith)
        requires
            a.t_lg_t <= 0x40000000000000,
            0 <= b.t <= 0x100000000,
    ;
    assert(b.s * a.t <= 0x40000000000000 * 0x100000000) by (nonlinear_arith)
        requires
            b.s <= 0x40000000000000,
            0 <= a.t <= 0x100000000,
    ;
    assert(b.t_lg_t * a.t <= 0x40000000000000 * 0x100000000) by (nonlinear_arith)
        requires
            b.t_lg_t <= 0x40000000000000,
            0 <= a.t <= 0x100000000,
    ;
    assert(a.s * b.t <= 0x40000000000000 * 0x100000000) by (nonlinear_arith)
        requires
            a.s <= 0x40000000000000,
            0 <= b.t <= 0x100000000,
    ;
}

/// Decides `entropy(a) < entropy(b)` exactly.
pub fn key_lt(a: &EntropyKey, b: &EntropyKey) -> (r: bool)
    requires
        key_bounds(*a),
        key_bounds(*b),
    ensures
        r == spec_key_lt(*a, *b),
{
    proof {
        lemma_key_products_bounded(*a, *b);
    }
    let lhs: u128 = (a.t_lg_t as u128) * (b.t as u128) + (b.s as u128) * (a.t as u128);
    let rhs: u128 = (b.t_lg_t as u128) * (a.t as u128) + (a.s as u128) * (b.t as u128);
    lhs < rhs
}

/// Decides `entropy(a) == entropy(b)` exactly.
pub fn key_eq(a: &EntropyKey, b: &EntropyKey) -> (r: bool)
    requires
        key_bounds(*a),
        key_bounds(*b),
    ensures
        r == spec_key_eq(*a, *b),
{
    proof {
        lemma_key_products_bounded(*a, *b);
    }
    let lhs: u128 = (a.t_lg_t as u128) * (b.t as u128) + (b.s as u128) * (a.t as u128);
    let rhs: u128 = (b.t_lg_t as u128) * (a.t as u128) + (a.s as u128) * (b.t as u128);
    lhs == rhs
}

/// The sum of `c * lg c` over the frequencies of the tiles named by
/// `opts`.
pub open spec fn slg_sum_of(opts: Seq<usize>, tiles: Seq<Tile>) -> int
    decreases opts.len(),
{
    if opts.len() == 0 {
        0
    } else {
        tiles[opts[0] as int].frequency * spec_lg(tiles[opts[0] as int].frequency as int)
            + slg_sum_of(opts.drop_first(), tiles)
    }
}

/// The fixed-point logarithm is never negative.
pub proof fn lemma_spec_lg_nonneg(x: int)
    ensures
        0 <= spec_lg(x),
{
    lemma_lg_frac_bound(spec_norm(x), 16);
}

pub proof fn lemma_slg_sum_nonneg(opts: Seq<usize>, tiles: Seq<Tile>)
    ensures
        0 <= slg_sum_of(opts, tiles),
    decreases opts.len(),
{
    if opts.len() > 0 {
        lemma_slg_sum_nonneg(opts.drop_first(), tiles);
        let f = tiles[opts[0] as int].frequency;
        lemma_spec_lg_nonneg(f as int);
        assert(0 <= f * spec_lg(f as int)) by (nonlinear_arith)
            requires
                0 <= f,
                0 <= spec_lg(f as int),
        ;
    }
}

/// The key a cell's option list must produce.
pub open spec fn key_exact(k: EntropyKey, opts: Seq<usize>, tiles: Seq<Tile>) -> bool {
    &&& k.t == freq_sum_of(opts, tiles)
    &&& k.t_lg_t == k.t * spec_lg(k.t as int)
    &&& k.s == slg_sum_of(opts, tiles)
}

/// The key of an option list, as a value (meaningful whenever the
/// sums fit the fields, which `key_exact` certifies).
pub open spec fn spec_entropy_key(opts: Seq<usize>, tiles: Seq<Tile>) -> EntropyKey {
    EntropyKey {
        t: freq_sum_of(opts, tiles) as u64,
        t_lg_t: (freq_sum_of(opts, tiles) * spec_lg(freq_sum_of(opts, tiles))) as u64,
        s: slg_sum_of(opts, tiles) as u64,
    }
}

/// The exact rational order on keys is transitive.
pub proof fn lemma_key_lt_trans(a: EntropyKey, b: EntropyKey, c: EntropyKey)
    requires
        1 <= a.t,
        1 <= b.t,
        1 <= c.t,
        spec_key_lt(a, b),
        spec_key_lt(b, c),
    ensures
        spec_key_lt(a, c),
{
    assert(a.t_lg_t * c.t + c.s * a.t < c.t_lg_t * a.t + a.s * c.t) by (nonlinear_arith)
        requires
            1 <= a.t,
            1 <= b.t,
            1 <= c.t,
            a.t_lg_t * b.t + b.s * a.t < b.t_lg_t * a.t + a.s * b.t,
            b.t_lg_t * c.t + c.s * b.t < c.t_lg_t * b.t + b.s * c.t,
    ;
}

/// Keys with equal entropy compare alike against any third key.
pub proof fn lemma_key_eq_lt(a: EntropyKey, b: EntropyKey, c: EntropyKey)
    requires
        1 <= a.t,
        1 <= b.t,
        1 <= c.t,
        spec_key_eq(a, b),
    ensures
        spec_key_lt(c, a) == spec_key_lt(c, b),
        spec_key_lt(a, c) == spec_key_lt(b, c),
{
    assert((c.t_lg_t * a.t + a.s * c.t < a.t_lg_t * c.t + c.s * a.t) == (c.t_lg_t * b.t + b.s
        * c.t < b.t_lg_t * c.t + c.s * b.t)) by (nonlinear_arith)
        requires
            1 <= a.t,
            1 <= b.t,
            1 <= c.t,
            a.t_lg_t * b.t + b.s * a.t == b.t_lg_t * a.t + a.s * b.t,
    ;
    assert((a.t_lg_t * c.t + c.s * a.t < c.t_lg_t * a.t + a.s * c.t) == (b.t_lg_t * c.t + c.s
        * b.t < c.t_lg_t * b.t + b.s * c.t)) by (nonlinear_arith)
        requires
            1 <= a.t,
            1 <= b.t,
            1 <= c.t,
            a.t_lg_t * b.t + b.s * a.t == b.t_lg_t * a.t + a.s * b.t,
    ;
}

} // verus!
