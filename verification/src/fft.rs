//! Radix-2 FFT and inverse FFT over a field's power-of-two
//! roots-of-unity domain: coefficients to evaluations and back.

use vstd::prelude::*;
use vstd::arithmetic::power2::pow2;
use vstd::arithmetic::power::pow;
use vstd::arithmetic::div_mod::*;
use crate::field::{Field, pow_mod, vals, inverses_correct, fm};
use crate::dft::{stage_val, dft_at};

verus! {

/// `x`'s low `bits` bits, reversed, on top of `acc`.
pub open spec fn rev_acc(x: nat, bits: nat, acc: nat) -> nat
    decreases bits,
{
    if bits == 0 {
        acc
    } else {
        rev_acc(x / 2, (bits - 1) as nat, 2 * acc + x % 2)
    }
}

/// The number whose low `bits` bits are those of `x` in reverse order.
pub open spec fn rev_bits(x: nat, bits: nat) -> nat {
    rev_acc(x, bits, 0)
}

/// `n` is `2^k` for some `k`.
pub open spec fn is_pow2_len(n: nat) -> bool {
    exists|k: nat| pow2(k) == n
}

/// The `k` with `2^k == n`, for a power of two `n`.
pub open spec fn log2_of(n: nat) -> nat {
    choose|k: nat| pow2(k) == n
}

/// `log2_of` inverts `pow2`.
pub proof fn lemma_log2_of(k: nat)
    ensures
        log2_of(pow2(k)) == k,
{
    let j = log2_of(pow2(k));
    assert(pow2(j) == pow2(k));
    if j < k {
        vstd::arithmetic::power2::lemma_pow2_strictly_increases(j, k);
    } else if j > k {
        vstd::arithmetic::power2::lemma_pow2_strictly_increases(k, j);
    }
}

/// The product of two powers of two is a power of two.
pub proof fn lemma_pow2_mul(a: nat, b: nat)
    requires
        is_pow2_len(a),
        is_pow2_len(b),
    ensures
        is_pow2_len(a * b),
        log2_of(a * b) == log2_of(a) + log2_of(b),
{
    let ka = choose|k: nat| pow2(k) == a;
    let kb = choose|k: nat| pow2(k) == b;
    vstd::arithmetic::power2::lemma_pow2_adds(ka, kb);
    lemma_log2_of(ka);
    lemma_log2_of(kb);
    lemma_log2_of(ka + kb);
}

/// The field has no zero divisors (true of every prime field).
pub open spec fn no_zero_divisors<F: Field>() -> bool {
    forall|a: int, b: int|
        0 < a < F::p() && 0 < b < F::p() ==> #[trigger] ((a * b) % F::p()) != 0
}

/// Returns `k` with `2^k == n` when `n` is a power of two.
pub fn log2_exact(n: usize) -> (r: Option<u32>)
    ensures
        r matches Some(k) ==> pow2(k as nat) == n && k < 64,
        r is None ==> !is_pow2_len(n as nat),
{
    let mut k: u32 = 0;
    let mut m: usize = 1;
    proof {
        vstd::arithmetic::power2::lemma2_to64();
    }
    while m < n
        invariant
            m == pow2(k as nat),
            k < 64,
            forall|j: nat| j < k ==> pow2(j) < n,
        decreases 64 - k,
    {
        if m > usize::MAX / 2 {
            proof {
                assert forall|j: nat| pow2(j) != n by {
                    if j <= k {
                        if j < k {
                        }
                    } else {
                        vstd::arithmetic::power2::lemma_pow2_strictly_increases(k as nat, j);
                        vstd::arithmetic::power2::lemma_pow2_unfold((k + 1) as nat);
                        if j > k + 1 {
                            vstd::arithmetic::power2::lemma_pow2_strictly_increases((k + 1) as nat, j);
                        }
                    }
                }
            }
            return None;
        }
        proof {
            vstd::arithmetic::power2::lemma_pow2_unfold((k + 1) as nat);
            if k + 1 >= 64 {
                lemma_pow2_le(64, (k + 1) as nat);
                vstd::arithmetic::power2::lemma2_to64_rest();
            }
        }
        m = m * 2;
        k = k + 1;
    }
    if m == n {
        Some(k)
    } else {
        proof {
            assert forall|j: nat| pow2(j) != n by {
                if j > k {
                    vstd::arithmetic::power2::lemma_pow2_strictly_increases(k as nat, j);
                }
            }
        }
        None
    }
}

/// Reverses the low `bits` bits of `x`.
pub fn reverse_bits(x: usize, bits: u32) -> (r: usize)
    requires
        bits < 64,
        pow2(bits as nat) <= usize::MAX,
        x < pow2(bits as nat),
    ensures
        r == rev_bits(x as nat, bits as nat),
        r < pow2(bits as nat),
{
    let mut result: usize = 0;
    let mut y = x;
    let mut t: u32 = 0;
    proof {
        vstd::arithmetic::power2::lemma2_to64();
        lemma_rev_acc_bound(x as nat, bits as nat, 0);
    }
    while t < bits
        invariant
            t <= bits,
            bits < 64,
            pow2(bits as nat) <= usize::MAX,
            rev_acc(y as nat, (bits - t) as nat, result as nat) == rev_acc(x as nat, bits as nat, 0),
            result < pow2(t as nat),
        decreases bits - t,
    {
        proof {
            vstd::arithmetic::power2::lemma_pow2_unfold((t + 1) as nat);
            lemma_pow2_le((t + 1) as nat, bits as nat);
        }
        result = result * 2 + y % 2;
        y = y / 2;
        t = t + 1;
    }
    proof {
        lemma_rev_acc_bound(x as nat, bits as nat, 0);
    }
    result
}

/// Reversing `bits` bits onto `acc` gives `acc * 2^bits` plus something below `2^bits`.
pub proof fn lemma_rev_acc_bound(x: nat, bits: nat, acc: nat)
    ensures
        acc * pow2(bits) <= rev_acc(x, bits, acc) < (acc + 1) * pow2(bits),
    decreases bits,
{
    if bits == 0 {
        vstd::arithmetic::power2::lemma2_to64();
    } else {
        let b1 = (bits - 1) as nat;
        lemma_rev_acc_bound(x / 2, b1, 2 * acc + x % 2);
        vstd::arithmetic::power2::lemma_pow2_unfold(bits);
        assert((2 * acc + x % 2) * pow2(b1) >= acc * pow2(bits)) by (nonlinear_arith)
            requires pow2(bits) == 2 * pow2(b1), x % 2 >= 0;
        assert((2 * acc + x % 2 + 1) * pow2(b1) <= (acc + 1) * pow2(bits)) by (nonlinear_arith)
            requires pow2(bits) == 2 * pow2(b1), x % 2 <= 1;
    }
}

/// Moves the element at index `rev(i)` to index `i`, for every `i`, by
/// swapping each pair once.
fn bit_reverse_permute<F: Field>(values: &mut Vec<F>, bits: u32)
    requires
        bits < 64,
        old(values)@.len() == pow2(bits as nat),
    ensures
        final(values)@.len() == old(values)@.len(),
        forall|k: int|
            0 <= k < old(values)@.len() ==> #[trigger] final(values)@[k] == old(values)@[rev_bits(
                k as nat,
                bits as nat,
            ) as int],
{
    let n = values.len();
    let ghost orig = values@;
    let mut i: usize = 0;
    while i < n
        invariant
            i <= n,
            n == values@.len(),
            n == orig.len(),
            bits < 64,
            n == pow2(bits as nat),
            forall|k: int|
                0 <= k < n ==> #[trigger] values@[k] == if k < i || rev_bits(k as nat, bits as nat) < i {
                    orig[rev_bits(k as nat, bits as nat) as int]
                } else {
                    orig[k]
                },
        decreases n - i,
    {
        let j = reverse_bits(i, bits);
        proof {
            crate::dft::lemma_rev_involution(i as nat, bits as nat);
        }
        if i < j {
            let a = values[i];
            let b = values[j];
            values.set(i, b);
            values.set(j, a);
        }
        proof {
            assert forall|k: int| 0 <= k < n implies #[trigger] values@[k] == if k < i + 1 || rev_bits(
                k as nat,
                bits as nat,
            ) < i + 1 {
                orig[rev_bits(k as nat, bits as nat) as int]
            } else {
                orig[k]
            } by {
                crate::dft::lemma_rev_involution(k as nat, bits as nat);
            }
        }
        i = i + 1;
    }
}

/// The `2^s`-th root of unity that `root_of_unity(s)` returns.
pub open spec fn stage_root<F: Field>(s: nat) -> int {
    pow_mod(F::prim_root_val(), pow2((F::two_adicity_spec() - s) as nat), F::p())
}

/// The root that butterfly pass `s` multiplies by: the stage root, or its
/// inverse for the inverse transform.
pub open spec fn pass_root<F: Field>(inverse: bool, s: nat) -> int {
    if inverse {
        F::inv_val(stage_root::<F>(s)) % F::p()
    } else {
        stage_root::<F>(s)
    }
}

/// In a field without zero divisors an element has at most one inverse.
pub proof fn lemma_inverse_unique<F: Field>(b: int, x: int, y: int)
    requires
        0 < b < F::p(),
        0 <= x < F::p(),
        0 <= y < F::p(),
        (b * x) % F::p() == 1,
        (b * y) % F::p() == 1,
    ensures
        x == y,
{
    F::lemma_prime_field();
    let p = F::p();
    if x != y {
        crate::field::lemma_nonzero_diff::<F>(x, y);
        let d = (x - y) % p;
        lemma_mod_bound(x - y, p);
        lemma_mul_mod_noop_right(b, x - y, p);
        assert(b * (x - y) == b * x - b * y) by (nonlinear_arith);
        lemma_sub_mod_noop(b * x, b * y, p);
        lemma_small_mod(0, p as nat);
        assert((b * d) % p != 0);
    }
}

/// The forward pass roots: in range, each the square of the next, and
/// `r_s^(2^(s-1)) = -1`.
pub proof fn lemma_stage_root_family<F: Field>(s: nat)
    requires
        1 <= s <= F::two_adicity_spec(),
    ensures
        0 <= stage_root::<F>(s) < F::p(),
        (stage_root::<F>(s) * stage_root::<F>(s)) % F::p() == stage_root::<F>((s - 1) as nat),
        pow_mod(stage_root::<F>(s), pow2((s - 1) as nat), F::p()) == F::p() - 1,
{
    F::lemma_modulus();
    F::lemma_root_order();
    let p = F::p();
    let g = F::prim_root_val();
    let t = F::two_adicity_spec();
    let a = stage_root::<F>(s);
    lemma_mod_bound(pow(g, pow2((t - s) as nat)), p);
    crate::field::lemma_square_pow2_mod(g, (t - s) as nat, p);
    assert(((t - s) as nat + 1) as nat == (t - (s - 1) as nat) as nat);
    vstd::arithmetic::power::lemma_pow_mod_noop(pow(g, pow2((t - s) as nat)), pow2((s - 1) as nat), p);
    vstd::arithmetic::power::lemma_pow_multiplies(g, pow2((t - s) as nat), pow2((s - 1) as nat));
    vstd::arithmetic::power2::lemma_pow2_adds((t - s) as nat, (s - 1) as nat);
    assert(((t - s) as nat + (s - 1) as nat) as nat == (t - 1) as nat);
}

/// The pass roots of either direction: in range, each the square of the
/// next, and `r_s^(2^(s-1)) = -1`.
pub proof fn lemma_pass_root_family<F: Field>(inverse: bool, s: nat)
    requires
        1 <= s <= F::two_adicity_spec(),
    ensures
        0 <= pass_root::<F>(inverse, s) < F::p(),
        (pass_root::<F>(inverse, s) * pass_root::<F>(inverse, s)) % F::p() == pass_root::<F>(
            inverse,
            (s - 1) as nat,
        ) % F::p(),
        pow_mod(pass_root::<F>(inverse, s), pow2((s - 1) as nat), F::p()) == F::p() - 1,
{
    F::lemma_prime_field();
    F::lemma_modulus();
    let p = F::p();
    lemma_stage_root_family::<F>(s);
    let a = stage_root::<F>(s);
    let b = stage_root::<F>((s - 1) as nat);
    lemma_mod_twice(pow(F::prim_root_val(), pow2((F::two_adicity_spec() - (s - 1) as nat) as nat)), p);
    if inverse {
        let h = pow2((s - 1) as nat);
        lemma_root_nonzero::<F>(s);
        lemma_root_nonzero::<F>((s - 1) as nat);
        let ia = F::inv_val(a) % p;
        let ib = F::inv_val(b) % p;
        assert(fm(a, F::inv_val(a), p) == 1);
        assert(fm(b, F::inv_val(b), p) == 1);
        lemma_mod_bound(F::inv_val(a), p);
        lemma_mod_bound(F::inv_val(b), p);
        lemma_mul_mod_noop_right(a, F::inv_val(a), p);
        lemma_mul_mod_noop_right(b, F::inv_val(b), p);
        assert((a * ia) % p == 1);
        assert((b * ib) % p == 1);
        // (ia * ia) is an inverse of b = a * a
        let x = (ia * ia) % p;
        lemma_mod_bound(ia * ia, p);
        lemma_mul_mod_noop(a * a, ia * ia, p);
        assert((a * a) * (ia * ia) == (a * ia) * (a * ia)) by (nonlinear_arith);
        lemma_mul_mod_noop(a * ia, a * ia, p);
        lemma_small_mod(1, p as nat);
        assert((b * x) % p == 1);
        lemma_inverse_unique::<F>(b, x, ib);
        lemma_mod_twice(F::inv_val(b), p);
        // ia^h is an inverse of a^h = -1, as is -1 itself
        let y = pow_mod(ia, h, p);
        lemma_mod_bound(pow(ia, h), p);
        lemma_mul_mod_noop(pow(a, h), pow(ia, h), p);
        vstd::arithmetic::power::lemma_pow_distributes(a, ia, h);
        vstd::arithmetic::power::lemma_pow_mod_noop(a * ia, h, p);
        vstd::arithmetic::power::lemma1_pow(h);
        assert(((p - 1) * y) % p == 1);
        assert((p - 1) * (p - 1) == p * (p - 2) + 1) by (nonlinear_arith);
        lemma_mod_multiples_vanish(p - 2, 1, p);
        lemma_inverse_unique::<F>(p - 1, y, p - 1);
    }
}

/// The butterfly passes shared by the FFT and the inverse FFT: after pass
/// `log_n`, index `i` holds the transform of the whole input at
/// `r^i` for the pass root `r` (given the field facts the roots need).
fn butterflies<F: Field>(values: &mut Vec<F>, log_n: u32, inverse: bool)
    requires
        log_n <= F::two_adicity_spec(),
        old(values)@.len() == pow2(log_n as nat),
    ensures
        final(values)@.len() == old(values)@.len(),
        forall|i: int|
            0 <= i < old(values)@.len() ==> #[trigger] final(values)@[i].val() == stage_val(
                vals(old(values)@),
                log_n as nat,
                i,
                pass_root::<F>(inverse, log_n as nat),
                F::p(),
            ),
{
    proof {
        F::lemma_prime_field();
    }
    let n = values.len();
    let ghost v0 = vals(values@);
    let ghost hyp = !inverse || inverses_correct::<F>();
    let ghost p = F::p();
    let mut s: u32 = 1;
    let mut m: usize = 2;
    proof {
        vstd::arithmetic::power2::lemma2_to64();
        F::lemma_modulus();
        assert forall|i: int| 0 <= i < n implies #[trigger] values@[i].val() == stage_val(
            v0,
            0,
            i,
            pass_root::<F>(inverse, 0),
            p,
        ) by {
            F::lemma_val_range(values@[i]);
            crate::dft::lemma_stage_zero(v0, i, pass_root::<F>(inverse, 0), p);
        }
    }
    while s <= log_n
        invariant
            1 <= s <= log_n + 1,
            s <= log_n ==> m == pow2(s as nat),
            log_n <= F::two_adicity_spec(),
            n == values@.len(),
            n == pow2(log_n as nat),
            v0.len() == n,
            p == F::p(),
            hyp == (!inverse || inverses_correct::<F>()),
            inverse ==> no_zero_divisors::<F>(),
            hyp ==> forall|i: int|
                0 <= i < n ==> #[trigger] values@[i].val() == stage_val(
                    v0,
                    (s - 1) as nat,
                    i,
                    pass_root::<F>(inverse, (s - 1) as nat),
                    p,
                ),
        decreases log_n + 1 - s,
    {
        proof {
            F::lemma_modulus();
            lemma_pow2_le(s as nat, log_n as nat);
            vstd::arithmetic::power2::lemma_pow2_unfold(s as nat);
            lemma_pow2_divides(s as nat, log_n as nat);
            vstd::arithmetic::power2::lemma_pow2_pos(s as nat);
            if hyp {
                lemma_pass_root_family::<F>(inverse, s as nat);
            }
        }
        let half_m = m / 2;
        let root = F::root_of_unity(s);
        let w_m = if inverse {
            proof {
                lemma_root_nonzero::<F>(s as nat);
            }
            root.inverse().expect("root of unity is nonzero, so it is invertible")
        } else {
            root
        };
        let ghost r = pass_root::<F>(inverse, s as nat);
        let ghost rp = pass_root::<F>(inverse, (s - 1) as nat);
        proof {
            F::lemma_val_range(w_m);
            if inverse {
                lemma_small_mod(w_m.val() as nat, p as nat);
            }
            assert(w_m.val() == r);
            assert(half_m == pow2((s - 1) as nat));
        }
        let mut block_start: usize = 0;
        let ghost mut blk: int = 0;
        while block_start < n
            invariant
                n == values@.len(),
                n == pow2(log_n as nat),
                v0.len() == n,
                1 <= s <= log_n,
                m == pow2(s as nat),
                half_m == m / 2,
                half_m == pow2((s - 1) as nat),
                m <= n,
                n % m == 0,
                block_start == blk * m,
                block_start % m == 0,
                blk >= 0,
                block_start <= n,
                m > 0,
                p == F::p(),
                p > 64,
                w_m.val() == r,
                hyp ==> (r * r) % p == rp % p,
                hyp ==> pow_mod(r, pow2((s - 1) as nat), p) == p - 1,
                hyp ==> forall|i: int|
                    0 <= i < n ==> #[trigger] values@[i].val() == if i < block_start {
                        stage_val(v0, s as nat, i, r, p)
                    } else {
                        stage_val(v0, (s - 1) as nat, i, rp, p)
                    },
            decreases n - block_start,
        {
            let mut w = F::one();
            let mut j: usize = 0;
            proof {
                lemma_block_fits(block_start as int, m as int, n as int);
                vstd::arithmetic::power::lemma_pow0(r);
                lemma_small_mod(1, p as nat);
            }
            while j < half_m
                invariant
                    n == values@.len(),
                    v0.len() == n,
                    j <= half_m,
                    half_m == m / 2,
                    half_m == pow2((s - 1) as nat),
                    m == pow2(s as nat),
                    1 <= s,
                    block_start + m <= n,
                    block_start == blk * m,
                    blk >= 0,
                    p == F::p(),
                    p > 64,
                    w_m.val() == r,
                    w.val() == pow_mod(r, j as nat, p),
                    hyp ==> (r * r) % p == rp % p,
                    hyp ==> pow_mod(r, pow2((s - 1) as nat), p) == p - 1,
                    hyp ==> forall|i: int|
                        0 <= i < n ==> #[trigger] values@[i].val() == if i < block_start + j || (
                        block_start + half_m <= i < block_start + half_m + j) {
                            stage_val(v0, s as nat, i, r, p)
                        } else {
                            stage_val(v0, (s - 1) as nat, i, rp, p)
                        },
                decreases half_m - j,
            {
                let ghost before = values@;
                let u = values[block_start + j];
                let t = w.fmul(values[block_start + j + half_m]);
                values.set(block_start + j, u.fadd(t));
                values.set(block_start + j + half_m, u.fsub(t));
                proof {
                    crate::dft::lemma_pow_mod_step(r, j as nat, p);
                    if hyp {
                        crate::dft::lemma_pass_step(v0, s as nat, blk, j as int, r, rp, p);
                        assert forall|i: int| 0 <= i < n implies #[trigger] values@[i].val() == if i < block_start
                            + j + 1 || (block_start + half_m <= i < block_start + half_m + j + 1) {
                            stage_val(v0, s as nat, i, r, p)
                        } else {
                            stage_val(v0, (s - 1) as nat, i, rp, p)
                        } by {
                            if i != block_start + j && i != block_start + j + half_m {
                                assert(values@[i] == before[i]);
                            }
                        }
                    }
                }
                w = w.fmul(w_m);
                j = j + 1;
            }
            proof {
                vstd::arithmetic::power2::lemma_pow2_unfold(s as nat);
                assert(m == 2 * half_m);
                if hyp {
                    assert forall|i: int| 0 <= i < n implies #[trigger] values@[i].val() == if i < block_start + m {
                        stage_val(v0, s as nat, i, r, p)
                    } else {
                        stage_val(v0, (s - 1) as nat, i, rp, p)
                    } by {}
                }
            }
            block_start = block_start + m;
            proof {
                vstd::arithmetic::div_mod::lemma_mod_add_multiples_vanish(block_start as int - m, m as int);
                blk = blk + 1;
                assert(block_start == blk * m) by (nonlinear_arith)
                    requires block_start == (blk - 1) * m + m;
            }
        }
        proof {
            vstd::arithmetic::power2::lemma_pow2_unfold((s + 1) as nat);
            if s < log_n {
                lemma_pow2_le((s + 1) as nat, log_n as nat);
            }
        }
        if s < log_n {
            m = m * 2;
        }
        s = s + 1;
    }
}

/// `2^a <= 2^b` for `a <= b`.
pub proof fn lemma_pow2_le(a: nat, b: nat)
    requires
        a <= b,
    ensures
        pow2(a) <= pow2(b),
{
    if a < b {
        vstd::arithmetic::power2::lemma_pow2_strictly_increases(a, b);
    }
}

/// `2^s` divides `2^t` for `s <= t`.
proof fn lemma_pow2_divides(s: nat, t: nat)
    requires
        s <= t,
    ensures
        pow2(t) % pow2(s) == 0,
{
    vstd::arithmetic::power2::lemma_pow2_adds(s, (t - s) as nat);
    vstd::arithmetic::power2::lemma_pow2_pos(s);
    vstd::arithmetic::div_mod::lemma_mod_multiples_basic(pow2((t - s) as nat) as int, pow2(s) as int);
    vstd::arithmetic::mul::lemma_mul_is_commutative(pow2((t - s) as nat) as int, pow2(s) as int);
}

/// A block that starts at a multiple of `m` below `n` (itself a multiple of `m`) ends by `n`.
proof fn lemma_block_fits(b: int, m: int, n: int)
    requires
        m > 0,
        0 <= b < n,
        b % m == 0,
        n % m == 0,
    ensures
        b + m <= n,
{
    vstd::arithmetic::div_mod::lemma_fundamental_div_mod(b, m);
    vstd::arithmetic::div_mod::lemma_fundamental_div_mod(n, m);
    let qb = b / m;
    let qn = n / m;
    assert(b == m * qb && n == m * qn);
    assert(qb < qn) by (nonlinear_arith)
        requires b == m * qb, n == m * qn, b < n, m > 0;
    assert(b + m <= n) by (nonlinear_arith)
        requires b == m * qb, n == m * qn, qb < qn, m > 0;
}

/// Powers of a nonzero element of a field without zero divisors are nonzero.
pub proof fn lemma_pow_nonzero<F: Field>(b: int, e: nat)
    requires
        0 < b < F::p(),
    ensures
        pow_mod(b, e, F::p()) != 0,
        0 <= pow_mod(b, e, F::p()) < F::p(),
    decreases e,
{
    F::lemma_prime_field();
    F::lemma_modulus();
    let p = F::p();
    if e == 0 {
        vstd::arithmetic::power::lemma_pow0(b);
        vstd::arithmetic::div_mod::lemma_small_mod(1, p as nat);
    } else {
        lemma_pow_nonzero::<F>(b, (e - 1) as nat);
        let prev = pow_mod(b, (e - 1) as nat, p);
        vstd::arithmetic::power::lemma_pow_adds(b, 1, (e - 1) as nat);
        vstd::arithmetic::power::lemma_pow1(b);
        vstd::arithmetic::div_mod::lemma_mul_mod_noop_right(b, vstd::arithmetic::power::pow(b, (e - 1) as nat), p);
        assert(((b * prev) % p) != 0);
        vstd::arithmetic::div_mod::lemma_mod_bound(vstd::arithmetic::power::pow(b, e), p);
    }
}

/// The roots of unity used by the FFT are nonzero.
pub proof fn lemma_root_nonzero<F: Field>(s: nat)
    requires
        s <= F::two_adicity_spec(),
    ensures
        stage_root::<F>(s) != 0,
        0 <= stage_root::<F>(s) < F::p(),
{
    F::lemma_prime_field();
    F::lemma_modulus();
    lemma_pow_nonzero::<F>(F::prim_root_val(), pow2((F::two_adicity_spec() - s) as nat));
}

/// Bit reversal followed by the butterfly passes: index `k` ends up holding
/// the transform of the input at `r^k` for the pass root `r`.
proof fn lemma_transform_result<F: Field>(orig: Seq<F>, permuted: Seq<F>, fin: Seq<F>, log_n: u32, inverse: bool)
    requires
        orig.len() == pow2(log_n as nat),
        permuted.len() == orig.len(),
        fin.len() == orig.len(),
        forall|k: int|
            0 <= k < orig.len() ==> #[trigger] permuted[k] == orig[rev_bits(k as nat, log_n as nat) as int],
        forall|i: int|
            0 <= i < orig.len() ==> #[trigger] fin[i].val() == stage_val(
                vals(permuted),
                log_n as nat,
                i,
                pass_root::<F>(inverse, log_n as nat),
                F::p(),
            ),
    ensures
        forall|k: int|
            0 <= k < orig.len() ==> #[trigger] fin[k].val() == dft_at(
                vals(orig),
                pass_root::<F>(inverse, log2_of(orig.len())),
                k,
                F::p(),
            ),
{
    lemma_log2_of(log_n as nat);
    assert forall|k: int| 0 <= k < vals(permuted).len() implies #[trigger] vals(permuted)[k] == vals(orig)[rev_bits(
        k as nat,
        log_n as nat,
    ) as int] by {
        crate::dft::lemma_rev_bound(k as nat, log_n as nat);
    }
    crate::dft::lemma_full_block(vals(permuted), vals(orig), log_n as nat);
    assert forall|k: int| 0 <= k < orig.len() implies #[trigger] fin[k].val() == dft_at(
        vals(orig),
        pass_root::<F>(inverse, log2_of(orig.len())),
        k,
        F::p(),
    ) by {
        crate::dft::lemma_stage_full(vals(permuted), log_n as nat, k, pass_root::<F>(inverse, log_n as nat), F::p());
    }
}

/// The transform of a single coefficient is that coefficient.
proof fn lemma_transform_single<F: Field>(a: Seq<F>, r: int)
    requires
        a.len() == 1,
    ensures
        dft_at(vals(a), r, 0, F::p()) == a[0].val(),
        log2_of(a.len()) == 0,
{
    F::lemma_modulus();
    F::lemma_val_range(a[0]);
    vstd::arithmetic::power2::lemma2_to64();
    lemma_log2_of(0);
    crate::dft::lemma_stage_zero(vals(a), 0, r, F::p());
    crate::dft::lemma_stage_full(vals(a), 0, 0, r, F::p());
    assert(crate::dft::block_input(vals(a), 0, 0) =~= vals(a));
}

/// Forward FFT: coefficients to evaluations on the `2^k`-point domain.
pub fn fft<F: Field>(values: &mut Vec<F>)
    requires
        is_pow2_len(old(values)@.len()),
        old(values)@.len() <= pow2(F::two_adicity_spec()),
    ensures
        final(values)@.len() == old(values)@.len(),
        old(values)@.len() <= 1 ==> final(values)@ == old(values)@,
        forall|k: int|
            0 <= k < old(values)@.len() ==> #[trigger] final(values)@[k].val() == dft_at(
                vals(old(values)@),
                stage_root::<F>(log2_of(old(values)@.len())),
                k,
                F::p(),
            ),
{
    let n = values.len();
    let log_n = match log2_exact(n) {
        Some(k) => k,
        None => {
            return;
        },
    };
    if n <= 1 {
        proof {
            if n == 1 {
                lemma_transform_single::<F>(values@, stage_root::<F>(0));
            }
        }
        return;
    }
    proof {
        F::lemma_modulus();
        if log_n > F::two_adicity_spec() {
            vstd::arithmetic::power2::lemma_pow2_strictly_increases(F::two_adicity_spec(), log_n as nat);
        }
    }
    let ghost orig = values@;
    bit_reverse_permute(values, log_n);
    let ghost permuted = values@;
    butterflies(values, log_n, false);
    proof {
        lemma_transform_result::<F>(orig, permuted, values@, log_n, false);
    }
}

/// Inverse FFT: evaluations on the `2^k`-point domain back to coefficients.
/// Index `k` ends up holding `n^-1` times the transform at the `k`-th power
/// of the inverse root.
pub fn ifft<F: Field>(values: &mut Vec<F>)
    requires
        is_pow2_len(old(values)@.len()),
        old(values)@.len() <= pow2(F::two_adicity_spec()),
    ensures
        final(values)@.len() == old(values)@.len(),
        old(values)@.len() <= 1 ==> final(values)@ == old(values)@,
        forall|k: int|
            0 <= k < old(values)@.len() ==> #[trigger] final(values)@[k].val() == fm(
                dft_at(vals(old(values)@), pass_root::<F>(true, log2_of(old(values)@.len())), k, F::p()),
                F::inv_val(old(values)@.len() as int),
                F::p(),
            ),
{
    proof {
        F::lemma_prime_field();
    }
    let n = values.len();
    let log_n = match log2_exact(n) {
        Some(k) => k,
        None => {
            return;
        },
    };
    if n <= 1 {
        proof {
            if n == 1 && inverses_correct::<F>() {
                lemma_transform_single::<F>(values@, pass_root::<F>(true, 0));
                F::lemma_modulus();
                F::lemma_val_range(values@[0]);
                lemma_small_mod(1, F::p() as nat);
                assert(fm(1, F::inv_val(1), F::p()) == 1);
                lemma_mul_mod_noop_right(values@[0].val(), F::inv_val(1), F::p());
                lemma_small_mod(values@[0].val() as nat, F::p() as nat);
                assert(1 * F::inv_val(1) == F::inv_val(1));
                assert(F::inv_val(1) % F::p() == 1);
                assert(values@[0].val() * 1 == values@[0].val());
            }
        }
        return;
    }
    proof {
        F::lemma_modulus();
        if log_n > F::two_adicity_spec() {
            vstd::arithmetic::power2::lemma_pow2_strictly_increases(F::two_adicity_spec(), log_n as nat);
        }
    }
    let ghost orig = values@;
    bit_reverse_permute(values, log_n);
    let ghost permuted = values@;
    butterflies(values, log_n, true);
    proof {
        if inverses_correct::<F>() {
            lemma_transform_result::<F>(orig, permuted, values@, log_n, true);
        }
    }
    let ghost transformed = values@;
    let n_field = F::from_u64(n as u64);
    proof {
        lemma_small_mod(n as nat, F::p() as nat);
    }
    let n_inv = n_field.inverse().expect(
        "n is a power of two and the field's characteristic is odd, so it is invertible",
    );
    let mut i: usize = 0;
    while i < n
        invariant
            i <= n,
            n == values@.len(),
            n == transformed.len(),
            n_inv.val() == F::inv_val(n as int),
            forall|k: int| i <= k < n ==> #[trigger] values@[k] == transformed[k],
            forall|k: int|
                0 <= k < i ==> #[trigger] values@[k].val() == fm(transformed[k].val(), F::inv_val(n as int), F::p()),
        decreases n - i,
    {
        let v = values[i];
        values.set(i, v.fmul(n_inv));
        i = i + 1;
    }
}

} // verus!
