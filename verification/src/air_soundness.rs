//! Soundness of the CPU's AIR transition constraints: two consecutive rows
//! that satisfy every transition constraint decode to one instruction, and
//! the second row's pc and registers are what that instruction makes of
//! the first row's.

use vstd::prelude::*;
use crate::field::{Field, vals, fa, fs, fm};
use crate::opcodes::{NUM_REGISTERS, NUM_OPCODES};
use crate::air_for_isa::{Row, RowView, unit, dot, lemma_dot_unit};
use crate::air_laws::{canonical, lemma_replace, lemma_keep};
use crate::constraints::{
    transition_check_list, first_row_check_list, last_row_check_list, air_holds, row_views, all_hold, field_sum, bool_checks, one_hot_checks, register_checks, write_value_of,
    writes_register_of, expected_pc_of,
};

verus! {

/// The row has the AIR's widths, and every value in it is canonical.
pub open spec fn row_view_ok(v: RowView, p: int) -> bool {
    &&& v.registers.len() == NUM_REGISTERS && canonical(v.registers, p)
    &&& v.sel.len() == NUM_OPCODES && canonical(v.sel, p)
    &&& v.is_write_r.len() == NUM_REGISTERS && canonical(v.is_write_r, p)
    &&& v.is_read_a_r.len() == NUM_REGISTERS && canonical(v.is_read_a_r, p)
    &&& v.is_read_b_r.len() == NUM_REGISTERS && canonical(v.is_read_b_r, p)
    &&& 0 <= v.pc < p
    &&& 0 <= v.addr < p
    &&& 0 <= v.imm < p
    &&& 0 <= v.mem_read_value < p
    &&& 0 <= v.mem_write_value < p
    &&& 0 <= v.jnz_is_zero < p
    &&& 0 <= v.jnz_inv < p
}

proof fn lemma_vals_canonical<F: Field>(s: Seq<F>)
    ensures
        canonical(vals(s), F::p()),
        vals(s).len() == s.len(),
{
    assert forall|k: int| 0 <= k < vals(s).len() implies 0 <= #[trigger] vals(s)[k] < F::p() by {
        F::lemma_val_range(s[k]);
    }
}

/// The view of every row has the AIR's widths and canonical values.
pub proof fn lemma_row_view_ok<F: Field>(r: Row<F>)
    ensures
        row_view_ok(r@, F::p()),
{
    lemma_vals_canonical(r.registers@);
    lemma_vals_canonical(r.sel@);
    lemma_vals_canonical(r.is_write_r@);
    lemma_vals_canonical(r.is_read_a_r@);
    lemma_vals_canonical(r.is_read_b_r@);
    F::lemma_val_range(r.pc);
    F::lemma_val_range(r.addr);
    F::lemma_val_range(r.imm);
    F::lemma_val_range(r.mem_read_value);
    F::lemma_val_range(r.mem_write_value);
    F::lemma_val_range(r.jnz_is_zero);
    F::lemma_val_range(r.jnz_inv);
}

/// Both parts of a list hold when the list holds.
proof fn lemma_all_hold_split(a: Seq<(Seq<char>, int)>, b: Seq<(Seq<char>, int)>)
    requires
        all_hold(a + b),
    ensures
        all_hold(a),
        all_hold(b),
{
    assert forall|k: int| 0 <= k < a.len() implies (#[trigger] a[k]).1 == 0 by {
        assert((a + b)[k] == a[k]);
    }
    assert forall|k: int| 0 <= k < b.len() implies (#[trigger] b[k]).1 == 0 by {
        assert((a + b)[a.len() + k] == b[k]);
    }
}

/// Field subtraction of canonical values is zero exactly when they are equal.
pub(crate) proof fn lemma_sub_zero(a: int, b: int, p: int)
    requires
        p > 1,
        0 <= a < p,
        0 <= b < p,
    ensures
        fs(a, b, p) == 0 <==> a == b,
{
    if a >= b {
        vstd::arithmetic::div_mod::lemma_small_mod((a - b) as nat, p as nat);
    } else {
        vstd::arithmetic::div_mod::lemma_small_mod((a - b + p) as nat, p as nat);
        vstd::arithmetic::div_mod::lemma_mod_add_multiples_vanish(a - b, p);
    }
}

/// A canonical value that passes the boolean check is 0 or 1.
proof fn lemma_boolean<F: Field>(b: int)
    requires
        0 <= b < F::p(),
        fm(b, fs(b, 1, F::p()), F::p()) == 0,
    ensures
        b == 0 || b == 1,
{
    let p = F::p();
    F::lemma_modulus();
    F::lemma_prime_field();
    if b > 1 {
        vstd::arithmetic::div_mod::lemma_small_mod((b - 1) as nat, p as nat);
        assert(((b * (b - 1)) % p) != 0);
    }
}

/// Bits summed in a field larger than their count: the sum is their count
/// of ones, so a zero sum means no one and a sum of one means exactly one,
/// at the returned index.
proof fn lemma_bits_sum(bits: Seq<int>, m: nat, p: int) -> (k: int)
    requires
        p > m,
        p > 1,
        bits.len() >= m,
        forall|j: int| 0 <= j < m ==> #[trigger] bits[j] == 0 || bits[j] == 1,
    ensures
        0 <= field_sum(bits, m, p) <= m,
        field_sum(bits, m, p) == 0 ==> forall|j: int| 0 <= j < m ==> #[trigger] bits[j] == 0,
        field_sum(bits, m, p) == 1 ==> 0 <= k < m && bits[k] == 1 && forall|j: int|
            0 <= j < m && j != k ==> #[trigger] bits[j] == 0,
    decreases m,
{
    if m == 0 {
        0
    } else {
        let k0 = lemma_bits_sum(bits, (m - 1) as nat, p);
        let prev = field_sum(bits, (m - 1) as nat, p);
        vstd::arithmetic::div_mod::lemma_small_mod((prev + bits[m - 1]) as nat, p as nat);
        assert(field_sum(bits, m, p) == prev + bits[m - 1]);
        if bits[m - 1] == 1 {
            (m - 1) as int
        } else {
            k0
        }
    }
}

/// A canonical vector that passes its one-hot checks (booleans summing to
/// one) is a unit vector, with its 1 at the returned index.
proof fn lemma_one_hot_decode<F: Field>(bits: Seq<int>, n: nat, name: Seq<char>) -> (k: int)
    requires
        bits.len() == n,
        n < F::p(),
        canonical(bits, F::p()),
        fs(field_sum(bits, n, F::p()), 1, F::p()) == 0,
        all_hold(bool_checks(bits, name, F::p())),
    ensures
        0 <= k < n,
        bits == unit(k, n),
{
    let p = F::p();
    F::lemma_modulus();
    assert forall|j: int| 0 <= j < n implies #[trigger] bits[j] == 0 || bits[j] == 1 by {
        assert(bool_checks(bits, name, p)[j].1 == 0);
        lemma_boolean::<F>(bits[j]);
    }
    let k = lemma_bits_sum(bits, n, p);
    lemma_sub_zero(field_sum(bits, n, p), 1, p);
    assert(bits =~= unit(k, n));
    k
}

/// Field operations give canonical values, and `0` and `1` act on
/// canonical values as they do on integers.
pub(crate) proof fn lemma_field_facts(p: int)
    requires
        p > 1,
    ensures
        forall|x: int, y: int| 0 <= #[trigger] fa(x, y, p) < p,
        forall|x: int, y: int| 0 <= #[trigger] fs(x, y, p) < p,
        forall|x: int, y: int| 0 <= #[trigger] fm(x, y, p) < p,
        forall|x: int| #[trigger] fm(0, x, p) == 0,
        forall|x: int| #[trigger] fm(x, 0, p) == 0,
        forall|x: int| 0 <= x < p ==> #[trigger] fm(1, x, p) == x,
        forall|x: int| 0 <= x < p ==> #[trigger] fm(x, 1, p) == x,
        forall|x: int| 0 <= x < p ==> #[trigger] fa(x, 0, p) == x,
        forall|x: int| 0 <= x < p ==> #[trigger] fa(0, x, p) == x,
        forall|x: int| 0 <= x < p ==> #[trigger] fs(x, 0, p) == x,
        forall|x: int| #[trigger] fs(x, x, p) == 0,
        fs(1, 1, p) == 0,
        fs(1, 0, p) == 1,
        fs(0, 1, p) == p - 1,
{
    assert forall|x: int, y: int| 0 <= #[trigger] fa(x, y, p) < p by {
        vstd::arithmetic::div_mod::lemma_mod_bound(x + y, p);
    }
    assert forall|x: int, y: int| 0 <= #[trigger] fs(x, y, p) < p by {
        vstd::arithmetic::div_mod::lemma_mod_bound(x - y, p);
    }
    assert forall|x: int, y: int| 0 <= #[trigger] fm(x, y, p) < p by {
        vstd::arithmetic::div_mod::lemma_mod_bound(x * y, p);
    }
    vstd::arithmetic::div_mod::lemma_small_mod(0, p as nat);
    vstd::arithmetic::div_mod::lemma_small_mod(1, p as nat);
    vstd::arithmetic::div_mod::lemma_small_mod((p - 1) as nat, p as nat);
    vstd::arithmetic::div_mod::lemma_mod_add_multiples_vanish(-1, p);
    assert forall|x: int| #[trigger] fm(0, x, p) == 0 by {
        assert(0 * x == 0);
    }
    assert forall|x: int| #[trigger] fm(x, 0, p) == 0 by {
        assert(x * 0 == 0);
    }
    assert forall|x: int| 0 <= x < p implies #[trigger] fm(1, x, p) == x by {
        vstd::arithmetic::div_mod::lemma_small_mod(x as nat, p as nat);
    }
    assert forall|x: int| 0 <= x < p implies #[trigger] fm(x, 1, p) == x by {
        vstd::arithmetic::div_mod::lemma_small_mod(x as nat, p as nat);
    }
    assert forall|x: int| 0 <= x < p implies #[trigger] fa(x, 0, p) == x by {
        vstd::arithmetic::div_mod::lemma_small_mod(x as nat, p as nat);
    }
    assert forall|x: int| 0 <= x < p implies #[trigger] fa(0, x, p) == x by {
        vstd::arithmetic::div_mod::lemma_small_mod(x as nat, p as nat);
    }
    assert forall|x: int| 0 <= x < p implies #[trigger] fs(x, 0, p) == x by {
        vstd::arithmetic::div_mod::lemma_small_mod(x as nat, p as nat);
    }
}

/// Does the instruction with opcode `op` write a register?
pub open spec fn op_writes_register(op: int) -> bool {
    op == 0 || op == 1 || op == 3 || op == 4
}

/// The value the instruction with opcode `op` writes: the immediate for
/// `LoadImm`, the memory word read for `Load`, the sum and the product of
/// the two read registers `ra` and `rb` for `Add` and `Mul`.
pub open spec fn op_written_value(cur: RowView, op: int, ra: int, rb: int, p: int) -> int {
    if op == 0 {
        cur.imm
    } else if op == 1 {
        cur.mem_read_value
    } else if op == 3 {
        (ra + rb) % p
    } else {
        (ra * rb) % p
    }
}

/// The pc after the instruction with opcode `op`: the jump target for
/// `Jmp`, and for `Jnz` when the read register `ra` is nonzero; the same pc
/// for `Halt`; else the next instruction.
pub open spec fn op_next_pc(cur: RowView, op: int, ra: int, p: int) -> int {
    if op == 5 {
        cur.addr
    } else if op == 6 && ra != 0 {
        cur.addr
    } else if op == 7 {
        cur.pc
    } else {
        (cur.pc + 1) % p
    }
}

/// Soundness of the transition constraints: when every transition
/// constraint holds between two rows, the first row's selectors and
/// register indices are one-hot, decoding to an opcode, a written register
/// and two read registers (returned in that order), and the second row is
/// what that instruction makes of the first: each register keeps its value
/// unless it is the one written, which takes the instruction's value; a
/// `Store` writes the register it reads; the pc moves as the instruction
/// says; and `Halt` stays halted.
pub proof fn lemma_transition_sound<F: Field>(cur: RowView, next: RowView) -> (d: (int, int, int, int))
    requires
        row_view_ok(cur, F::p()),
        row_view_ok(next, F::p()),
        all_hold(transition_check_list(cur, next, F::p())),
    ensures
        0 <= d.0 < NUM_OPCODES,
        cur.sel == unit(d.0, NUM_OPCODES as nat),
        0 <= d.1 < NUM_REGISTERS,
        cur.is_write_r == unit(d.1, NUM_REGISTERS as nat),
        0 <= d.2 < NUM_REGISTERS,
        cur.is_read_a_r == unit(d.2, NUM_REGISTERS as nat),
        0 <= d.3 < NUM_REGISTERS,
        cur.is_read_b_r == unit(d.3, NUM_REGISTERS as nat),
        forall|r: int|
            0 <= r < NUM_REGISTERS ==> #[trigger] next.registers[r] == if op_writes_register(d.0) && r == d.1 {
                op_written_value(cur, d.0, cur.registers[d.2], cur.registers[d.3], F::p())
            } else {
                cur.registers[r]
            },
        d.0 == 2 ==> cur.mem_write_value == cur.registers[d.2],
        next.pc == op_next_pc(cur, d.0, cur.registers[d.2], F::p()),
        d.0 == 7 ==> next.sel[7] == 1,
{
    let p = F::p();
    F::lemma_modulus();
    F::lemma_prime_field();
    lemma_field_facts(p);
    let ra = dot(cur.is_read_a_r, cur.registers, NUM_REGISTERS as nat, p);
    let s0 = seq![("opcode_selector_sums_to_one"@, fs(field_sum(cur.sel, NUM_OPCODES as nat, p), 1, p))];
    let bs = bool_checks(cur.sel, "opcode_selector_is_boolean"@, p);
    let ow = one_hot_checks(cur.is_write_r, "write_index_sums_to_one"@, "write_index_is_boolean"@, p);
    let oa = one_hot_checks(cur.is_read_a_r, "read_a_index_sums_to_one"@, "read_a_index_is_boolean"@, p);
    let ob = one_hot_checks(cur.is_read_b_r, "read_b_index_sums_to_one"@, "read_b_index_is_boolean"@, p);
    let rc = register_checks(cur, next, p);
    let tail = seq![
        ("store_writes_the_read_register"@, fm(cur.sel[2], fs(cur.mem_write_value, ra, p), p)),
        ("is_zero_kills_nonzero_witness"@, fm(ra, cur.jnz_is_zero, p)),
        ("is_zero_inverse_consistency"@, fs(fm(ra, cur.jnz_inv, p), fs(1, cur.jnz_is_zero, p), p)),
        ("pc_transition"@, fs(next.pc, expected_pc_of(cur, p), p)),
        ("halt_is_sticky"@, fm(cur.sel[7], fs(1, next.sel[7], p), p)),
    ];
    assert(transition_check_list(cur, next, p) == s0 + bs + ow + oa + ob + rc + tail);
    lemma_all_hold_split(s0 + bs + ow + oa + ob + rc, tail);
    lemma_all_hold_split(s0 + bs + ow + oa + ob, rc);
    lemma_all_hold_split(s0 + bs + ow + oa, ob);
    lemma_all_hold_split(s0 + bs + ow, oa);
    lemma_all_hold_split(s0 + bs, ow);
    lemma_all_hold_split(s0, bs);
    assert(s0[0].1 == 0);
    let op = lemma_one_hot_decode::<F>(cur.sel, NUM_OPCODES as nat, "opcode_selector_is_boolean"@);
    let wname = "write_index_sums_to_one"@;
    let aname = "read_a_index_sums_to_one"@;
    let bname = "read_b_index_sums_to_one"@;
    lemma_all_hold_split(seq![(wname, fs(field_sum(cur.is_write_r, 6, p), 1, p))], bool_checks(cur.is_write_r, "write_index_is_boolean"@, p));
    lemma_all_hold_split(seq![(aname, fs(field_sum(cur.is_read_a_r, 6, p), 1, p))], bool_checks(cur.is_read_a_r, "read_a_index_is_boolean"@, p));
    lemma_all_hold_split(seq![(bname, fs(field_sum(cur.is_read_b_r, 6, p), 1, p))], bool_checks(cur.is_read_b_r, "read_b_index_is_boolean"@, p));
    assert(ow[0].1 == 0);
    assert(oa[0].1 == 0);
    assert(ob[0].1 == 0);
    let iw = lemma_one_hot_decode::<F>(cur.is_write_r, NUM_REGISTERS as nat, "write_index_is_boolean"@);
    let ia = lemma_one_hot_decode::<F>(cur.is_read_a_r, NUM_REGISTERS as nat, "read_a_index_is_boolean"@);
    let ib = lemma_one_hot_decode::<F>(cur.is_read_b_r, NUM_REGISTERS as nat, "read_b_index_is_boolean"@);
    lemma_dot_unit::<F>(ia, cur.registers, NUM_REGISTERS as nat);
    lemma_dot_unit::<F>(ib, cur.registers, NUM_REGISTERS as nat);
    assert(ra == cur.registers[ia]);
    let rb = cur.registers[ib];
    assert(dot(cur.is_read_b_r, cur.registers, NUM_REGISTERS as nat, p) == rb);
    let sl = cur.sel;
    assert(sl[0] == (if op == 0 { 1int } else { 0int }));
    assert(sl[1] == (if op == 1 { 1int } else { 0int }));
    assert(sl[2] == (if op == 2 { 1int } else { 0int }));
    assert(sl[3] == (if op == 3 { 1int } else { 0int }));
    assert(sl[4] == (if op == 4 { 1int } else { 0int }));
    assert(sl[5] == (if op == 5 { 1int } else { 0int }));
    assert(sl[6] == (if op == 6 { 1int } else { 0int }));
    assert(sl[7] == (if op == 7 { 1int } else { 0int }));
    assert(tail[0].1 == 0);
    assert(tail[1].1 == 0);
    assert(tail[2].1 == 0);
    assert(tail[3].1 == 0);
    assert(tail[4].1 == 0);
    // Store writes the register it reads.
    if op == 2 {
        lemma_sub_zero(cur.mem_write_value, ra, p);
    }
    // Halt stays halted.
    if op == 7 {
        lemma_sub_zero(1, next.sel[7], p);
    }
    // The zero test of the read register.
    let z = cur.jnz_is_zero;
    if ra == 0 {
        assert(fm(ra, cur.jnz_inv, p) == 0);
        lemma_sub_zero(0, fs(1, z, p), p);
        lemma_sub_zero(1, z, p);
        assert(z == 1);
    } else {
        if z != 0 {
            assert(((ra * z) % p) != 0);
        }
        assert(z == 0);
    }
    // The pc.
    let e = expected_pc_of(cur, p);
    lemma_sub_zero(next.pc, e, p);
    assert(next.pc == e);
    let pc1 = fa(cur.pc, 1, p);
    assert(pc1 == (cur.pc + 1) % p);
    if op == 5 {
        assert(e == cur.addr);
    } else if op == 6 {
        if ra == 0 {
            assert(e == pc1);
        } else {
            assert(e == cur.addr);
        }
    } else if op == 7 {
        assert(e == cur.pc);
    } else {
        assert(e == pc1);
    }
    // The registers.
    let w = writes_register_of(cur, p);
    let v = write_value_of(cur, p);
    if op_writes_register(op) {
        assert(w == 1);
        if op == 0 {
            assert(v == cur.imm);
        } else if op == 1 {
            assert(v == cur.mem_read_value);
        } else if op == 3 {
            assert(v == fa(ra, rb, p));
        } else {
            assert(v == fm(ra, rb, p));
        }
    } else {
        assert(w == 0);
    }
    assert forall|r: int| 0 <= r < NUM_REGISTERS implies #[trigger] next.registers[r] == if op_writes_register(op)
        && r == iw {
        op_written_value(cur, op, cur.registers[ia], cur.registers[ib], p)
    } else {
        cur.registers[r]
    } by {
        let c = cur.registers[r];
        assert(rc[r].1 == 0);
        let t = fa(c, fm(fm(w, cur.is_write_r[r], p), fs(v, c, p), p), p);
        lemma_sub_zero(next.registers[r], t, p);
        if op_writes_register(op) && r == iw {
            assert(cur.is_write_r[r] == 1);
            lemma_replace(c, v, p);
        } else {
            if r != iw {
                assert(cur.is_write_r[r] == 0);
            }
            lemma_keep(c, w, cur.is_write_r[r], fs(v, c, p), p);
        }
    }
    (op, iw, ia, ib)
}

/// A non-empty trace the AIR accepts ends halted, and every pair of
/// consecutive rows in it meets what `lemma_transition_sound` asks.
pub proof fn lemma_accepted_trace_rows<F: Field>(rows: Seq<Row<F>>, i: int)
    requires
        rows.len() > 0,
        air_holds(rows),
        0 <= i < rows.len() - 1,
    ensures
        rows.last()@.sel[7] == 1,
        row_view_ok(rows[i]@, F::p()),
        row_view_ok(rows[i + 1]@, F::p()),
        all_hold(transition_check_list(rows[i]@, rows[i + 1]@, F::p())),
{
    let p = F::p();
    F::lemma_modulus();
    let v = row_views(rows);
    lemma_row_view_ok(rows[i]);
    lemma_row_view_ok(rows[i + 1]);
    lemma_row_view_ok(rows.last());
    assert(v[i] == rows[i]@);
    assert(v[i + 1] == rows[i + 1]@);
    assert(v.last() == rows.last()@);
    assert(all_hold(transition_check_list(v[i], v[i + 1], p)));
    let f = first_row_check_list(v[0]);
    let b = f + last_row_check_list(v.last(), p);
    assert(b[f.len() as int] == last_row_check_list(v.last(), p)[0]);
    assert(b[f.len() as int].1 == 0);
    lemma_sub_zero(rows.last()@.sel[7], 1, p);
}

} // verus!
