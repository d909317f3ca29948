//! What the radix-2 FFT computes, and why: bit reversal is an involution,
//! a block of the butterfly network holds the DFT of an interleaving of
//! its two halves' inputs, and a polynomial splits into its even and odd
//! coefficients.

use vstd::prelude::*;
use vstd::arithmetic::power2::pow2;
use vstd::arithmetic::div_mod::*;
use vstd::arithmetic::power::pow;
use crate::fft::{rev_acc, rev_bits, lemma_rev_acc_bound};
use crate::field::pow_mod;
use crate::poly::poly_eval;

verus! {

/// Reversing onto an accumulator shifts the accumulator up by `bits`.
pub proof fn lemma_rev_acc_shift(x: nat, bits: nat, acc: nat)
    ensures
        rev_acc(x, bits, acc) == acc * pow2(bits) + rev_acc(x, bits, 0),
    decreases bits,
{
    if bits == 0 {
        vstd::arithmetic::power2::lemma2_to64();
        assert(acc * 1 == acc);
    } else {
        let b1 = (bits - 1) as nat;
        assert(rev_acc(x, bits, acc) == rev_acc(x / 2, b1, 2 * acc + x % 2));
        assert(rev_acc(x, bits, 0) == rev_acc(x / 2, b1, x % 2));
        lemma_rev_acc_shift(x / 2, b1, 2 * acc + x % 2);
        lemma_rev_acc_shift(x / 2, b1, x % 2);
        vstd::arithmetic::power2::lemma_pow2_unfold(bits);
        assert((2 * acc + x % 2) * pow2(b1) == acc * pow2(bits) + (x % 2) * pow2(b1)) by (nonlinear_arith)
            requires pow2(bits) == 2 * pow2(b1);
    }
}

/// The low bit of `x` becomes the top bit of its reversal.
pub proof fn lemma_rev_low(x: nat, bits: nat)
    requires
        bits >= 1,
    ensures
        rev_bits(x, bits) == (x % 2) * pow2((bits - 1) as nat) + rev_bits(x / 2, (bits - 1) as nat),
{
    lemma_rev_acc_shift(x / 2, (bits - 1) as nat, x % 2);
}

/// The reversal of `x` is below `2^bits`.
pub proof fn lemma_rev_bound(x: nat, bits: nat)
    ensures
        rev_bits(x, bits) < pow2(bits),
{
    lemma_rev_acc_bound(x, bits, 0);
    assert((0 + 1) * pow2(bits) == pow2(bits)) by (nonlinear_arith);
}

/// The top bit of `x` becomes the low bit of its reversal.
pub proof fn lemma_rev_high(x: nat, bits: nat)
    requires
        bits >= 1,
        x < pow2(bits),
    ensures
        rev_bits(x, bits) == 2 * rev_bits(x % pow2((bits - 1) as nat), (bits - 1) as nat) + x / pow2(
            (bits - 1) as nat,
        ),
    decreases bits,
{
    let b1 = (bits - 1) as nat;
    vstd::arithmetic::power2::lemma_pow2_pos(b1);
    vstd::arithmetic::power2::lemma_pow2_unfold(bits);
    if bits == 1 {
        vstd::arithmetic::power2::lemma2_to64();
        lemma_rev_low(x, 1);
        assert(x < 2);
        assert(rev_bits(x / 2, 0) == 0);
        assert(rev_bits(x % 1, 0) == 0);
    } else {
        let b2 = (bits - 2) as nat;
        let m2 = pow2(b2);
        vstd::arithmetic::power2::lemma_pow2_pos(b2);
        vstd::arithmetic::power2::lemma_pow2_unfold(b1);
        assert(pow2(b1) == 2 * m2);
        lemma_rev_low(x, bits);
        assert(x / 2 < pow2(b1)) by {
            lemma_div_by_multiple_is_strongly_ordered(x as int, pow2(bits) as int, pow2(b1) as int, 2);
            lemma_div_multiples_vanish(pow2(b1) as int, 2);
        }
        lemma_rev_high(x / 2, b1);
        let y = x % pow2(b1);
        assert(y == x % (2 * m2));
        lemma_mod_bound(x as int, pow2(b1) as int);
        lemma_rev_low(y, b1);
        lemma_mod_mod(x as int, 2, m2 as int);
        assert(y % 2 == x % 2);
        lemma_mod_breakdown(x as int, 2, m2 as int);
        assert(y / 2 == (x / 2) % m2) by {
            lemma_mod_bound((x / 2) as int, m2 as int);
            lemma_fundamental_div_mod_converse(y as int, 2, ((x / 2) % m2) as int, (x % 2) as int);
        }
        lemma_div_denominator(x as int, 2, m2 as int);
        assert((x / 2) / m2 == x / pow2(b1));
        let r2 = rev_bits((x / 2) % m2, b2);
        assert(rev_bits(x / 2, b1) == 2 * r2 + (x / 2) / m2);
        assert(rev_bits(y, b1) == (x % 2) * m2 + r2);
        assert((x % 2) * pow2(b1) + 2 * r2 == 2 * ((x % 2) * m2 + r2)) by (nonlinear_arith)
            requires pow2(b1) == 2 * m2;
    }
}

/// Reversing the low `bits` bits twice gives back `x`.
pub proof fn lemma_rev_involution(x: nat, bits: nat)
    requires
        x < pow2(bits),
    ensures
        rev_bits(rev_bits(x, bits), bits) == x,
    decreases bits,
{
    if bits == 0 {
        vstd::arithmetic::power2::lemma2_to64();
        assert(x == 0);
    } else {
        let b1 = (bits - 1) as nat;
        vstd::arithmetic::power2::lemma_pow2_unfold(bits);
        vstd::arithmetic::power2::lemma_pow2_pos(b1);
        let r = rev_bits(x / 2, b1);
        lemma_rev_low(x, bits);
        lemma_rev_bound(x / 2, b1);
        let y = rev_bits(x, bits);
        assert(y == (x % 2) * pow2(b1) + r);
        lemma_rev_bound(x, bits);
        lemma_rev_high(y, bits);
        lemma_fundamental_div_mod_converse(y as int, pow2(b1) as int, (x % 2) as int, r as int);
        assert(x / 2 < pow2(b1)) by {
            lemma_div_by_multiple_is_strongly_ordered(x as int, pow2(bits) as int, pow2(b1) as int, 2);
            lemma_div_multiples_vanish(pow2(b1) as int, 2);
        }
        lemma_rev_involution(x / 2, b1);
        lemma_fundamental_div_mod(x as int, 2);
    }
}

/// The sequence whose even entries are `e` and whose odd entries are `o`.
pub open spec fn interleave(e: Seq<int>, o: Seq<int>) -> Seq<int> {
    Seq::new(2 * e.len(), |j: int| if j % 2 == 0 { e[j / 2] } else { o[j / 2] })
}

/// The coefficients whose transform block `b` of size `2^s` holds once the
/// butterfly passes up to `s` have run on `v0`: one entry at size one, and
/// the interleaving of its two halves' inputs above that.
pub open spec fn block_input(v0: Seq<int>, s: nat, b: int) -> Seq<int>
    decreases s,
{
    if s == 0 {
        seq![v0[b]]
    } else {
        interleave(block_input(v0, (s - 1) as nat, 2 * b), block_input(v0, (s - 1) as nat, 2 * b + 1))
    }
}

/// What index `i` holds once the butterfly passes up to `s` have run on
/// `v0` with the stage-`s` root `r`: block `i / 2^s`'s input evaluated at
/// `r` to the power of `i`'s place in the block.
pub open spec fn stage_val(v0: Seq<int>, s: nat, i: int, r: int, p: int) -> int {
    poly_eval(block_input(v0, s, i / (pow2(s) as int)), pow_mod(r, (i % (pow2(s) as int)) as nat, p), p)
}

/// A block's input has `2^s` entries, entry `j` taken from index
/// `b * 2^s + rev(j)` of `v0`.
pub proof fn lemma_block_input_index(v0: Seq<int>, s: nat, b: int, j: int)
    requires
        0 <= j < pow2(s),
    ensures
        block_input(v0, s, b).len() == pow2(s),
        block_input(v0, s, b)[j] == v0[b * pow2(s) + rev_bits(j as nat, s)],
    decreases s,
{
    if s == 0 {
        vstd::arithmetic::power2::lemma2_to64();
        assert(j == 0);
        assert(b * 1 == b);
    } else {
        let s1 = (s - 1) as nat;
        let h = pow2(s1);
        vstd::arithmetic::power2::lemma_pow2_unfold(s);
        vstd::arithmetic::power2::lemma_pow2_pos(s1);
        let jh = j / 2;
        assert(0 <= jh < h);
        lemma_block_input_index(v0, s1, 2 * b, jh);
        lemma_block_input_index(v0, s1, 2 * b + 1, jh);
        crate::dft::lemma_rev_low(j as nat, s);
        assert(b * pow2(s) == (2 * b) * h) by (nonlinear_arith)
            requires pow2(s) == 2 * h;
        assert((2 * b + 1) * h == (2 * b) * h + h) by (nonlinear_arith);
        assert((j % 2) * h == if j % 2 == 0 { 0 } else { h }) by (nonlinear_arith)
            requires 0 <= j % 2 < 2;
    }
}

/// `(a + b * (c mod p)) mod p == (a + b * c) mod p`.
pub proof fn lemma_mod_inner(a: int, b: int, c: int, p: int)
    requires
        p > 0,
    ensures
        (a + b * (c % p)) % p == (a + b * c) % p,
{
    lemma_mul_mod_noop_right(b, c, p);
    lemma_add_mod_noop(a, b * (c % p), p);
    lemma_add_mod_noop(a, b * c, p);
}

/// Evaluation only sees the point modulo `p`.
pub proof fn lemma_poly_eval_point_mod(c: Seq<int>, x: int, p: int)
    requires
        p > 0,
    ensures
        poly_eval(c, x, p) == poly_eval(c, x % p, p),
    decreases c.len(),
{
    if c.len() > 0 {
        lemma_poly_eval_point_mod(c.drop_first(), x, p);
        let t = poly_eval(c.drop_first(), x, p);
        lemma_mul_mod_noop_left(x, t, p);
        lemma_add_mod_noop(c[0], x * t, p);
        lemma_add_mod_noop(c[0], (x % p) * t, p);
    }
}

/// A polynomial splits into its even and odd coefficients:
/// `x(z) = e(z^2) + z * o(z^2)`.
pub proof fn lemma_poly_eval_interleave(e: Seq<int>, o: Seq<int>, z: int, p: int)
    requires
        p > 0,
        e.len() == o.len(),
    ensures
        poly_eval(interleave(e, o), z, p) == (poly_eval(e, z * z, p) + z * poly_eval(o, z * z, p)) % p,
    decreases e.len(),
{
    let x = interleave(e, o);
    let zz = z * z;
    if e.len() == 0 {
        assert(x.len() == 0);
        assert(z * 0 == 0);
        lemma_small_mod(0, p as nat);
    } else {
        let e1 = e.drop_first();
        let o1 = o.drop_first();
        assert(x.drop_first().drop_first() =~= interleave(e1, o1));
        lemma_poly_eval_interleave(e1, o1, z, p);
        let ee = poly_eval(e1, zz, p);
        let oo = poly_eval(o1, zz, p);
        let r = poly_eval(x.drop_first().drop_first(), z, p);
        assert(x[0] == e[0]);
        assert(x.drop_first()[0] == o[0]);
        assert(poly_eval(x.drop_first(), z, p) == (o[0] + z * r) % p);
        assert(poly_eval(x, z, p) == (e[0] + z * ((o[0] + z * r) % p)) % p);
        lemma_mod_inner(e[0], z, o[0] + z * r, p);
        assert(e[0] + z * (o[0] + z * r) == e[0] + z * o[0] + zz * r) by (nonlinear_arith)
            requires zz == z * z;
        lemma_mod_inner(e[0] + z * o[0], zz, ee + z * oo, p);
        // right-hand side
        let ev = (e[0] + zz * ee) % p;
        let ov = (o[0] + zz * oo) % p;
        assert(poly_eval(e, zz, p) == ev);
        assert(poly_eval(o, zz, p) == ov);
        assert((ev + z * ov) % p == (e[0] + zz * ee + z * ov) % p) by {
            lemma_add_mod_noop(ev, z * ov, p);
            lemma_mod_twice(e[0] + zz * ee, p);
            lemma_add_mod_noop(e[0] + zz * ee, z * ov, p);
        }
        lemma_mod_inner(e[0] + zz * ee, z, o[0] + zz * oo, p);
        assert(e[0] + zz * ee + z * (o[0] + zz * oo) == e[0] + z * o[0] + zz * (ee + z * oo)) by (nonlinear_arith)
            requires zz == z * z;
    }
}

/// `(r^j)^2 = rp^j` when `r^2 = rp`, modulo `p`.
pub proof fn lemma_square_of_power(r: int, rp: int, j: nat, p: int)
    requires
        p > 0,
        (r * r) % p == rp % p,
    ensures
        (pow_mod(r, j, p) * pow_mod(r, j, p)) % p == pow_mod(rp, j, p),
{
    lemma_mul_mod_noop(pow(r, j), pow(r, j), p);
    vstd::arithmetic::power::lemma_pow_distributes(r, r, j);
    vstd::arithmetic::power::lemma_pow_mod_noop(r * r, j, p);
    vstd::arithmetic::power::lemma_pow_mod_noop(rp, j, p);
}

/// One butterfly: from the values `u` of `e` and `ov` of `o` at `rp^j`,
/// the values of their interleaving at `r^j` and at `r^(j + h)`, where
/// `r^2 = rp` and `r^h = -1`.
pub proof fn lemma_butterfly(e: Seq<int>, o: Seq<int>, r: int, rp: int, h: nat, j: nat, p: int)
    requires
        p > 1,
        e.len() == o.len(),
        (r * r) % p == rp % p,
        pow_mod(r, h, p) == p - 1,
    ensures
        ({
            let u = poly_eval(e, pow_mod(rp, j, p), p);
            let ov = poly_eval(o, pow_mod(rp, j, p), p);
            let w = pow_mod(r, j, p);
            &&& (u + (w * ov) % p) % p == poly_eval(interleave(e, o), w, p)
            &&& (u - (w * ov) % p) % p == poly_eval(interleave(e, o), pow_mod(r, j + h, p), p)
        }),
{
    let x = interleave(e, o);
    let z = pow_mod(r, j, p);
    let q = pow_mod(rp, j, p);
    let u = poly_eval(e, q, p);
    let ov = poly_eval(o, q, p);
    lemma_square_of_power(r, rp, j, p);
    assert((z * z) % p == q);
    // at r^j
    lemma_poly_eval_interleave(e, o, z, p);
    lemma_poly_eval_point_mod(e, z * z, p);
    lemma_poly_eval_point_mod(o, z * z, p);
    assert(poly_eval(x, z, p) == (u + z * ov) % p);
    lemma_add_mod_noop(u, z * ov, p);
    lemma_add_mod_noop(u, (z * ov) % p, p);
    lemma_mod_twice(z * ov, p);
    // at r^(j + h) = -r^j
    let z2 = pow_mod(r, j + h, p);
    vstd::arithmetic::power::lemma_pow_adds(r, j, h);
    lemma_mul_mod_noop(pow(r, j), pow(r, h), p);
    assert(z2 == (z * (p - 1)) % p);
    assert(z * (p - 1) == p * z + (0 - z)) by (nonlinear_arith);
    lemma_mod_multiples_vanish(z, 0 - z, p);
    assert(z2 == (0 - z) % p);
    lemma_mul_mod_noop(0 - z, 0 - z, p);
    assert((0 - z) * (0 - z) == z * z) by (nonlinear_arith);
    assert((z2 * z2) % p == q);
    lemma_poly_eval_interleave(e, o, z2, p);
    lemma_poly_eval_point_mod(e, z2 * z2, p);
    lemma_poly_eval_point_mod(o, z2 * z2, p);
    assert(poly_eval(x, z2, p) == (u + z2 * ov) % p);
    lemma_mod_inner(u, ov, 0 - z, p);
    assert(ov * z2 == z2 * ov) by (nonlinear_arith);
    assert(ov * (0 - z) == 0 - z * ov) by (nonlinear_arith);
    lemma_mod_inner(u, -1, z * ov, p);
}

/// Before any pass, index `i` holds `v0[i]`.
pub proof fn lemma_stage_zero(v0: Seq<int>, i: int, r: int, p: int)
    requires
        p > 1,
        0 <= v0[i] < p,
    ensures
        stage_val(v0, 0, i, r, p) == v0[i],
{
    vstd::arithmetic::power2::lemma2_to64();
    assert(i / 1 == i);
    assert(i % 1 == 0);
    vstd::arithmetic::power::lemma_pow0(r);
    lemma_small_mod(1, p as nat);
    let c = seq![v0[i]];
    assert(c.drop_first() =~= Seq::<int>::empty());
    assert(1 * poly_eval(c.drop_first(), 1, p) == 0);
    lemma_small_mod(v0[i] as nat, p as nat);
}

/// One more factor: `r^(j+1) = r^j * r`, modulo `p`.
pub proof fn lemma_pow_mod_step(r: int, j: nat, p: int)
    requires
        p > 0,
    ensures
        pow_mod(r, j + 1, p) == (pow_mod(r, j, p) * r) % p,
{
    vstd::arithmetic::power::lemma_pow_adds(r, j, 1);
    vstd::arithmetic::power::lemma_pow1(r);
    lemma_mul_mod_noop_left(pow(r, j), r, p);
}

/// The butterfly on positions `q = blk * 2^s + j` and `q + 2^(s-1)` of
/// pass `s` turns their pass-`(s-1)` values into their pass-`s` values.
pub proof fn lemma_pass_step(v0: Seq<int>, s: nat, blk: int, j: int, r: int, rp: int, p: int)
    requires
        s >= 1,
        0 <= blk,
        0 <= j < pow2((s - 1) as nat),
        p > 1,
        (r * r) % p == rp % p,
        pow_mod(r, pow2((s - 1) as nat), p) == p - 1,
    ensures
        ({
            let h = pow2((s - 1) as nat) as int;
            let q = blk * (pow2(s) as int) + j;
            let u = stage_val(v0, (s - 1) as nat, q, rp, p);
            let ov = stage_val(v0, (s - 1) as nat, q + h, rp, p);
            let w = pow_mod(r, j as nat, p);
            &&& (u + (w * ov) % p) % p == stage_val(v0, s, q, r, p)
            &&& (u - (w * ov) % p) % p == stage_val(v0, s, q + h, r, p)
        }),
{
    let s1 = (s - 1) as nat;
    let h = pow2(s1) as int;
    let m = pow2(s) as int;
    vstd::arithmetic::power2::lemma_pow2_unfold(s);
    vstd::arithmetic::power2::lemma_pow2_pos(s1);
    let q = blk * m + j;
    assert(q == (2 * blk) * h + j) by (nonlinear_arith)
        requires m == 2 * h, q == blk * m + j;
    assert(q + h == (2 * blk + 1) * h + j) by (nonlinear_arith)
        requires q == (2 * blk) * h + j;
    lemma_fundamental_div_mod_converse(q, h, 2 * blk, j);
    lemma_fundamental_div_mod_converse(q + h, h, 2 * blk + 1, j);
    assert(q == blk * m + j);
    assert(q + h == blk * m + (j + h));
    lemma_fundamental_div_mod_converse(q, m, blk, j);
    lemma_fundamental_div_mod_converse(q + h, m, blk, j + h);
    let e = block_input(v0, s1, 2 * blk);
    let o = block_input(v0, s1, 2 * blk + 1);
    lemma_block_input_index(v0, s1, 2 * blk, 0);
    lemma_block_input_index(v0, s1, 2 * blk + 1, 0);
    assert(block_input(v0, s, blk) == interleave(e, o));
    lemma_butterfly(e, o, r, rp, pow2(s1), j as nat, p);
    assert((j + h) as nat == j as nat + pow2(s1));
}

/// The transform of the coefficients `c` at the `k`-th power of `r`.
pub open spec fn dft_at(c: Seq<int>, r: int, k: int, p: int) -> int {
    poly_eval(c, pow_mod(r, k as nat, p), p)
}

/// After the bit-reversal permutation, the whole array is one block whose
/// input is the original array.
pub proof fn lemma_full_block(v0: Seq<int>, a: Seq<int>, bits: nat)
    requires
        v0.len() == pow2(bits),
        a.len() == pow2(bits),
        forall|k: int| 0 <= k < v0.len() ==> #[trigger] v0[k] == a[rev_bits(k as nat, bits) as int],
    ensures
        block_input(v0, bits, 0) == a,
{
    vstd::arithmetic::power2::lemma_pow2_pos(bits);
    lemma_block_input_index(v0, bits, 0, 0);
    assert forall|j: int| 0 <= j < a.len() implies #[trigger] block_input(v0, bits, 0)[j] == a[j] by {
        lemma_block_input_index(v0, bits, 0, j);
        lemma_rev_bound(j as nat, bits);
        lemma_rev_involution(j as nat, bits);
        assert(0 * pow2(bits) == 0);
    }
    assert(block_input(v0, bits, 0) =~= a);
}

/// Once all passes have run, index `i` holds the transform of the whole
/// input at `r^i`.
pub proof fn lemma_stage_full(v0: Seq<int>, bits: nat, i: int, r: int, p: int)
    requires
        0 <= i < pow2(bits),
    ensures
        stage_val(v0, bits, i, r, p) == dft_at(block_input(v0, bits, 0), r, i, p),
{
    lemma_basic_div(i, pow2(bits) as int);
    lemma_small_mod(i as nat, pow2(bits));
}

} // verus!
