//! What the encoder writes, the decoder reads back.
use vstd::prelude::*;
use crate::common_inputs::{common_input_of, common_table};
use crate::encode::{
    any_head, any_osize, any_out, any_state, count_part, delta_of, delta_width, encode_any,
    encode_next, encode_node, encode_one, index_entry, index_part, index_table, max_nat, out_width,
    rev_deltas, rev_inputs, rev_outputs, slot_from, slot_of,
};
use crate::layout::{
    EMPTY_ADDRESS, NodeKind, any_count, delta_at, end_at, final_output_at, find_input_at, index_size,
    input_at, is_final_at, kind_at, le_at, ntrans_at, osize_at, output_at, record_ok, scan_inputs,
    sizes_at, spill_len, trans_addr_at, tsize_at,
};
use crate::node::{Transition, VERSION};
use crate::pack::{
    le_value, lemma_pack_bytes_len, lemma_pack_round_trip, lemma_pow256_monotone,
    lemma_pow256_values, pack_bytes, packed_width, pow256,
};

verus! {

/// Reading inside a copy of `e` placed at `p`.
proof fn lemma_read(d: Seq<u8>, p: int, e: Seq<u8>, lo: int, hi: int)
    requires
        0 <= p,
        p + e.len() <= d.len(),
        d.subrange(p, p + e.len()) == e,
        0 <= lo <= hi <= e.len(),
    ensures
        d.subrange(p + lo, p + hi) == e.subrange(lo, hi),
        forall|k: int| lo <= k < hi ==> d[p + k] == e[k],
{
    assert forall|k: int| lo <= k < hi implies d[p + k] == e[k] by {
        assert(d.subrange(p, p + e.len())[k] == d[p + k]);
    }
    assert(d.subrange(p + lo, p + hi) =~= e.subrange(lo, hi));
}

/// A value fits in any width at least its packed width.
proof fn lemma_width_fits(v: nat, w: nat)
    requires
        v <= u64::MAX,
        packed_width(v) <= w,
    ensures
        v < pow256(w),
{
    lemma_pow256_values();
    lemma_pow256_monotone(packed_width(v as nat), w);
}

proof fn lemma_packed_width_range(v: nat)
    ensures
        1 <= packed_width(v) <= 8,
{
}

proof fn lemma_delta_width(addr: int, trans: Seq<Transition>, i: int)
    requires
        0 <= i < trans.len(),
    ensures
        packed_width(delta_of(addr, trans[i].addr as int)) <= delta_width(addr, trans),
        delta_width(addr, trans) <= 8,
    decreases trans.len(),
{
    let p = trans.drop_last();
    if i < trans.len() - 1 {
        lemma_delta_width(addr, p, i);
    } else if p.len() > 0 {
        lemma_delta_width(addr, p, 0);
    }
}

proof fn lemma_out_width(trans: Seq<Transition>, i: int)
    requires
        0 <= i < trans.len(),
    ensures
        packed_width(trans[i].out.0 as nat) <= out_width(trans),
        out_width(trans) <= 8,
    decreases trans.len(),
{
    let p = trans.drop_last();
    if i < trans.len() - 1 {
        lemma_out_width(p, i);
    } else if p.len() > 0 {
        lemma_out_width(p, 0);
    }
}

proof fn lemma_widths_bounded(addr: int, trans: Seq<Transition>)
    ensures
        delta_width(addr, trans) <= 8,
        out_width(trans) <= 8,
{
    if trans.len() > 0 {
        lemma_delta_width(addr, trans, 0);
        lemma_out_width(trans, 0);
    }
}

proof fn lemma_rev_deltas(addr: int, trans: Seq<Transition>, w: nat, i: int)
    requires
        0 <= i < trans.len(),
    ensures
        rev_deltas(addr, trans, w).len() == trans.len() * w,
        rev_deltas(addr, trans, w).subrange((trans.len() - 1 - i) * w, (trans.len() - i) * w)
            == pack_bytes(delta_of(addr, trans[i].addr as int), w),
    decreases trans.len(),
{
    let n = trans.len() as int;
    let rest = trans.drop_first();
    lemma_pack_bytes_len(delta_of(addr, trans[0].addr as int), w);
    if n == 1 {
        assert(1 * w == w);
        assert(0 * w == 0);
        assert(rev_deltas(addr, rest, w) =~= Seq::<u8>::empty());
        assert(rev_deltas(addr, trans, w) =~= pack_bytes(delta_of(addr, trans[0].addr as int), w));
    } else {
        let j = if i == 0 { 0 } else { i - 1 };
        lemma_rev_deltas(addr, rest, w, j);
        assert((n - 1) * w + w == n * w) by (nonlinear_arith);
        assert(rev_deltas(addr, trans, w) == rev_deltas(addr, rest, w) + pack_bytes(delta_of(addr, trans[0].addr as int), w));
        assert(rev_deltas(addr, rest, w).len() == (n - 1) * w);
        if i == 0 {
            assert(rev_deltas(addr, trans, w).subrange((n - 1) * w, n * w) =~= pack_bytes(
                delta_of(addr, trans[0].addr as int),
                w,
            ));
        } else {
            assert(rest[i - 1] == trans[i]);
            assert((n - i) * w <= (n - 1) * w) by (nonlinear_arith)
                requires
                    i >= 1,
            ;
            assert(0 <= (n - 1 - i) * w) by (nonlinear_arith)
                requires
                    i <= n - 1,
            ;
            assert((n - 1 - i) * w + w == (n - i) * w) by (nonlinear_arith);
            assert(rev_deltas(addr, trans, w).subrange((n - 1 - i) * w, (n - i) * w)
                =~= rev_deltas(addr, rest, w).subrange((n - 1 - i) * w, (n - i) * w));
        }
    }
}

proof fn lemma_rev_outputs(trans: Seq<Transition>, w: nat, i: int)
    requires
        0 <= i < trans.len(),
    ensures
        rev_outputs(trans, w).len() == trans.len() * w,
        rev_outputs(trans, w).subrange((trans.len() - 1 - i) * w, (trans.len() - i) * w)
            == pack_bytes(trans[i].out.0 as nat, w),
    decreases trans.len(),
{
    let n = trans.len() as int;
    let rest = trans.drop_first();
    lemma_pack_bytes_len(trans[0].out.0 as nat, w);
    if n == 1 {
        assert(1 * w == w);
        assert(0 * w == 0);
        assert(rev_outputs(rest, w) =~= Seq::<u8>::empty());
        assert(rev_outputs(trans, w) =~= pack_bytes(trans[0].out.0 as nat, w));
    } else {
        let j = if i == 0 { 0 } else { i - 1 };
        lemma_rev_outputs(rest, w, j);
        assert((n - 1) * w + w == n * w) by (nonlinear_arith);
        assert(rev_outputs(trans, w) == rev_outputs(rest, w) + pack_bytes(trans[0].out.0 as nat, w));
        assert(rev_outputs(rest, w).len() == (n - 1) * w);
        if i == 0 {
            assert(rev_outputs(trans, w).subrange((n - 1) * w, n * w) =~= pack_bytes(
                trans[0].out.0 as nat,
                w,
            ));
        } else {
            assert(rest[i - 1] == trans[i]);
            assert((n - i) * w <= (n - 1) * w) by (nonlinear_arith)
                requires
                    i >= 1,
            ;
            assert(0 <= (n - 1 - i) * w) by (nonlinear_arith)
                requires
                    i <= n - 1,
            ;
            assert((n - 1 - i) * w + w == (n - i) * w) by (nonlinear_arith);
            assert(rev_outputs(trans, w).subrange((n - 1 - i) * w, (n - i) * w)
                =~= rev_outputs(rest, w).subrange((n - 1 - i) * w, (n - i) * w));
        }
    }
}

proof fn lemma_rev_deltas_len(addr: int, trans: Seq<Transition>, w: nat)
    ensures
        rev_deltas(addr, trans, w).len() == trans.len() * w,
{
    if trans.len() > 0 {
        lemma_rev_deltas(addr, trans, w, 0);
    } else {
        assert(rev_deltas(addr, trans, w) =~= Seq::<u8>::empty());
        assert(0 * w == 0);
    }
}

proof fn lemma_rev_outputs_len(trans: Seq<Transition>, w: nat)
    ensures
        rev_outputs(trans, w).len() == trans.len() * w,
{
    if trans.len() > 0 {
        lemma_rev_outputs(trans, w, 0);
    } else {
        assert(rev_outputs(trans, w) =~= Seq::<u8>::empty());
        assert(0 * w == 0);
    }
}

proof fn lemma_rev_inputs(trans: Seq<Transition>)
    ensures
        rev_inputs(trans).len() == trans.len(),
        forall|i: int|
            0 <= i < trans.len() ==> #[trigger] rev_inputs(trans)[trans.len() - 1 - i] == trans[i].inp,
    decreases trans.len(),
{
    if trans.len() > 0 {
        let rest = trans.drop_first();
        lemma_rev_inputs(rest);
        assert forall|i: int| 0 <= i < trans.len() implies #[trigger] rev_inputs(trans)[trans.len() - 1
            - i] == trans[i].inp by {
            if i > 0 {
                assert(rest[i - 1] == trans[i]);
                assert(rev_inputs(rest)[rest.len() - 1 - (i - 1)] == rest[i - 1].inp);
            }
        }
    }
}

/// What the builder guarantees of a node it writes at `addr`: at most 256
/// transitions, each to an earlier record or to the empty address, no final
/// output on a non-final node, and a previous record (at `last_addr`) that
/// ends right below `addr` or not below it at all.
pub open spec fn builder_node_ok(
    is_final: bool,
    final_output: u64,
    trans: Seq<Transition>,
    last_addr: int,
    addr: int,
) -> bool {
    &&& 1 <= addr
    &&& trans.len() <= 256
    &&& forall|k: int|
        0 <= k < trans.len() ==> (#[trigger] trans[k]).addr == EMPTY_ADDRESS || trans[k].addr < addr
    &&& !is_final ==> final_output == 0
    &&& (last_addr + 1 == addr || last_addr >= addr)
}

/// The record at `a` decodes to the node: its transitions, finality and
/// final output, and it starts at `addr`.
pub open spec fn decodes_to(
    d: Seq<u8>,
    a: int,
    is_final: bool,
    final_output: u64,
    trans: Seq<Transition>,
    addr: int,
) -> bool {
    &&& record_ok(d, a, VERSION)
    &&& ntrans_at(d, a) == trans.len()
    &&& is_final_at(d, a) == is_final
    &&& final_output_at(d, a, VERSION) == final_output
    &&& end_at(d, a, VERSION) == addr
    &&& forall|i: int|
        0 <= i < trans.len() ==> {
            &&& #[trigger] input_at(d, a, VERSION, i) == trans[i].inp
            &&& output_at(d, a, VERSION, i) == trans[i].out.0
            &&& trans_addr_at(d, a, VERSION, i) == trans[i].addr
        }
}

/// `d` holds the general-encoding record of the node at `addr`.
pub open spec fn holds_any(d: Seq<u8>, addr: int, is_final: bool, final_output: u64, trans: Seq<Transition>) -> bool {
    let e = encode_any(addr, is_final, final_output, trans);
    &&& 0 <= addr
    &&& addr + e.len() <= d.len() <= u64::MAX
    &&& d.subrange(addr, addr + e.len()) == e
}

proof fn lemma_no_out(trans: Seq<Transition>, i: int)
    requires
        !any_out(trans),
        0 <= i < trans.len(),
    ensures
        trans[i].out.0 == 0,
{
}

/// The header of a general-encoding record reads back.
proof fn lemma_any_header(d: Seq<u8>, addr: int, is_final: bool, fo: u64, trans: Seq<Transition>)
    requires
        builder_node_ok(is_final, fo, trans, addr, addr),
        holds_any(d, addr, is_final, fo, trans),
    ensures
        ({
            let a = addr + encode_any(addr, is_final, fo, trans).len() - 1;
            let n = trans.len() as int;
            let o = any_osize(is_final, fo, trans) as int;
            let t = delta_width(addr, trans) as int;
            &&& kind_at(d, a) == NodeKind::AnyTrans
            &&& any_count(d, a) == n
            &&& ntrans_at(d, a) == n
            &&& is_final_at(d, a) == is_final
            &&& tsize_at(d, a) == t
            &&& osize_at(d, a) == o
            &&& t <= 8
            &&& o <= 8
            &&& spill_len(d, a) == count_part(trans.len()).len()
            &&& index_size(VERSION, n) == index_part(trans).len()
            &&& end_at(d, a, VERSION) == addr
            &&& a - spill_len(d, a) - 1 - index_size(VERSION, n) - n == addr + any_head(
                is_final,
                fo,
                trans,
            ).len() + n * t
            &&& any_head(is_final, fo, trans).len() == (if fo != 0 || any_out(trans) {
                (if is_final {
                    o
                } else {
                    0
                }) + n * o
            } else {
                0
            })
            &&& 0 <= n * t
            &&& 0 <= n * o
            &&& 0 < a < d.len()
        }),
{
    let n = trans.len() as int;
    let any_outs = fo != 0 || any_out(trans);
    let o = any_osize(is_final, fo, trans);
    let t = delta_width(addr, trans);
    let h = any_head(is_final, fo, trans);
    let dd = rev_deltas(addr, trans, t);
    let ii = rev_inputs(trans);
    let x = index_part(trans);
    let c = count_part(trans.len());
    let st = any_state(is_final, trans.len());
    let ps = (t * 16 + o) as u8;
    let e = encode_any(addr, is_final, fo, trans);
    assert(e == h + dd + ii + x + seq![ps] + c + seq![st]);
    lemma_widths_bounded(addr, trans);
    lemma_packed_width_range(fo as nat);
    lemma_rev_deltas_len(addr, trans, t);
    lemma_rev_outputs_len(trans, o);
    lemma_rev_inputs(trans);
    lemma_pack_bytes_len(fo as nat, o);
    assert(0 <= n * (t as int)) by (nonlinear_arith)
        requires
            0 <= n,
            0 <= t,
    ;
    assert(0 <= n * (o as int)) by (nonlinear_arith)
        requires
            0 <= n,
            0 <= o,
    ;
    if !any_outs {
        assert(h =~= Seq::<u8>::empty());
        assert(n * (o as int) == 0);
    }
    if n > 32 {
        assert(x.len() == 256);
    } else {
        assert(x.len() == 0);
    }
    let a = addr + e.len() - 1;
    let pps = addr + h.len() + dd.len() + ii.len() + x.len();
    assert(a == pps + 1 + c.len());
    lemma_read(d, addr, e, 0, e.len() as int);
    assert(d[a] == e[e.len() - 1]);
    assert(e[e.len() - 1] == st);
    assert(d[pps] == e[pps - addr]);
    assert(e[pps - addr] == ps);
    assert(ps as int == t * 16 + o);
    assert(ps / 16 == t);
    assert(ps % 16 == o);
    assert(st < 128);
    if c.len() == 1 {
        assert(d[a - 1] == e[e.len() - 2]);
        assert(e[e.len() - 2] == c[0]);
    }
}

/// The input of transition `i` of a general-encoding record reads back.
#[verifier::spinoff_prover]
#[verifier::rlimit(40)]
proof fn lemma_any_input(d: Seq<u8>, addr: int, is_final: bool, fo: u64, trans: Seq<Transition>, i: int)
    requires
        builder_node_ok(is_final, fo, trans, addr, addr),
        holds_any(d, addr, is_final, fo, trans),
        0 <= i < trans.len(),
    ensures
        ({
            let a = addr + encode_any(addr, is_final, fo, trans).len() - 1;
            input_at(d, a, VERSION, i) == trans[i].inp
        }),
{
    lemma_any_header(d, addr, is_final, fo, trans);
    let n = trans.len() as int;
    let any_outs = fo != 0 || any_out(trans);
    let o = any_osize(is_final, fo, trans);
    let t = delta_width(addr, trans);
    let h = any_head(is_final, fo, trans);
    let dd = rev_deltas(addr, trans, t);
    let ii = rev_inputs(trans);
    let x = index_part(trans);
    let c = count_part(trans.len());
    let st = any_state(is_final, trans.len());
    let ps = (t * 16 + o) as u8;
    let e = encode_any(addr, is_final, fo, trans);
    let a = addr + e.len() - 1;
    assert(e == h + dd + ii + x + seq![ps] + c + seq![st]);
    lemma_rev_inputs(trans);
    let ti = t as int;
    let pin = h.len() + n * ti + (n - 1 - i);
    lemma_read(d, addr, e, 0, e.len() as int);
    assert(e[pin] == ii[n - 1 - i]);
    assert(input_at(d, a, VERSION, i) == d[addr + pin]);
}

/// The target of transition `i` of a general-encoding record reads back.
#[verifier::spinoff_prover]
#[verifier::rlimit(40)]
proof fn lemma_any_delta(d: Seq<u8>, addr: int, is_final: bool, fo: u64, trans: Seq<Transition>, i: int)
    requires
        builder_node_ok(is_final, fo, trans, addr, addr),
        holds_any(d, addr, is_final, fo, trans),
        0 <= i < trans.len(),
    ensures
        ({
            let a = addr + encode_any(addr, is_final, fo, trans).len() - 1;
            &&& trans_addr_at(d, a, VERSION, i) == trans[i].addr
            &&& delta_at(d, a, VERSION, i) <= addr
        }),
{
    lemma_any_header(d, addr, is_final, fo, trans);
    let n = trans.len() as int;
    let any_outs = fo != 0 || any_out(trans);
    let o = any_osize(is_final, fo, trans);
    let t = delta_width(addr, trans);
    let h = any_head(is_final, fo, trans);
    let dd = rev_deltas(addr, trans, t);
    let ii = rev_inputs(trans);
    let x = index_part(trans);
    let c = count_part(trans.len());
    let st = any_state(is_final, trans.len());
    let ps = (t * 16 + o) as u8;
    let e = encode_any(addr, is_final, fo, trans);
    let a = addr + e.len() - 1;
    assert(e == h + dd + ii + x + seq![ps] + c + seq![st]);
    lemma_rev_deltas(addr, trans, t, i);
    let ti = t as int;
    assert(0 <= (n - 1 - i) * ti) by (nonlinear_arith)
        requires
            i <= n - 1,
            0 <= ti,
    ;
    assert((n - 1 - i) * ti + ti == (n - i) * ti) by (nonlinear_arith);
    assert((n - i) * ti <= n * ti) by (nonlinear_arith)
        requires
            0 <= i,
            0 <= ti,
    ;
    assert(n * ti - i * ti - ti == (n - 1 - i) * ti) by (nonlinear_arith);
    let lo = h.len() + (n - 1 - i) * ti;
    lemma_read(d, addr, e, lo, lo + ti);
    assert(e.subrange(lo, lo + ti) =~= dd.subrange((n - 1 - i) * ti, (n - i) * ti));
    let delta = delta_of(addr, trans[i].addr as int);
    lemma_delta_width(addr, trans, i);
    lemma_width_fits(delta, t);
    lemma_pack_round_trip(delta, t);
    assert(delta_at(d, a, VERSION, i) == delta);
}

/// The output of transition `i` of a general-encoding record reads back.
#[verifier::spinoff_prover]
#[verifier::rlimit(100)]
proof fn lemma_any_output(d: Seq<u8>, addr: int, is_final: bool, fo: u64, trans: Seq<Transition>, i: int)
    requires
        builder_node_ok(is_final, fo, trans, addr, addr),
        holds_any(d, addr, is_final, fo, trans),
        0 <= i < trans.len(),
    ensures
        ({
            let a = addr + encode_any(addr, is_final, fo, trans).len() - 1;
            output_at(d, a, VERSION, i) == trans[i].out.0
        }),
{
    lemma_any_header(d, addr, is_final, fo, trans);
    let n = trans.len() as int;
    let any_outs = fo != 0 || any_out(trans);
    let o = any_osize(is_final, fo, trans);
    let t = delta_width(addr, trans);
    let h = any_head(is_final, fo, trans);
    let dd = rev_deltas(addr, trans, t);
    let ii = rev_inputs(trans);
    let x = index_part(trans);
    let c = count_part(trans.len());
    let st = any_state(is_final, trans.len());
    let ps = (t * 16 + o) as u8;
    let e = encode_any(addr, is_final, fo, trans);
    let a = addr + e.len() - 1;
    assert(e == h + dd + ii + x + seq![ps] + c + seq![st]);
    if o != 0 {
        let f: int = if is_final {
            o as int
        } else {
            0
        };
        let oi = o as int;
        let outs = rev_outputs(trans, o);
        lemma_rev_outputs(trans, o, i);
        lemma_rev_outputs_len(trans, o);
        lemma_pack_bytes_len(fo as nat, o);
        assert(h == (if is_final {
            pack_bytes(fo as nat, o)
        } else {
            Seq::empty()
        }) + outs);
        assert(0 <= (n - 1 - i) * oi) by (nonlinear_arith)
            requires
                i <= n - 1,
                0 <= oi,
        ;
        assert((n - 1 - i) * oi + oi == (n - i) * oi) by (nonlinear_arith);
        assert((n - i) * oi <= n * oi) by (nonlinear_arith)
            requires
                0 <= i,
                0 <= oi,
        ;
        assert(n * oi - i * oi - oi == (n - 1 - i) * oi) by (nonlinear_arith);
        let lo2 = f + (n - 1 - i) * oi;
        lemma_read(d, addr, e, lo2, lo2 + oi);
        assert(e.subrange(lo2, lo2 + oi) =~= outs.subrange((n - 1 - i) * oi, (n - i) * oi));
        lemma_out_width(trans, i);
        lemma_width_fits(trans[i].out.0 as nat, o);
        lemma_pack_round_trip(trans[i].out.0 as nat, o);
    } else {
        if any_outs {
            lemma_packed_width_range(fo as nat);
        }
        lemma_no_out(trans, i);
    }
}


/// The final output of a general-encoding record reads back.
#[verifier::spinoff_prover]
#[verifier::rlimit(40)]
proof fn lemma_any_final_output(d: Seq<u8>, addr: int, is_final: bool, fo: u64, trans: Seq<Transition>)
    requires
        builder_node_ok(is_final, fo, trans, addr, addr),
        holds_any(d, addr, is_final, fo, trans),
    ensures
        final_output_at(d, addr + encode_any(addr, is_final, fo, trans).len() - 1, VERSION) == fo,
{
    lemma_any_header(d, addr, is_final, fo, trans);
    let any_outs = fo != 0 || any_out(trans);
    let o = any_osize(is_final, fo, trans);
    let t = delta_width(addr, trans);
    let h = any_head(is_final, fo, trans);
    let dd = rev_deltas(addr, trans, t);
    let ii = rev_inputs(trans);
    let x = index_part(trans);
    let c = count_part(trans.len());
    let st = any_state(is_final, trans.len());
    let ps = (t * 16 + o) as u8;
    let e = encode_any(addr, is_final, fo, trans);
    assert(e == h + dd + ii + x + seq![ps] + c + seq![st]);
    if is_final && o != 0 {
        let outs = rev_outputs(trans, o);
        lemma_pack_bytes_len(fo as nat, o);
        assert(h == pack_bytes(fo as nat, o) + outs);
        lemma_read(d, addr, e, 0, o as int);
        assert(e.subrange(0, o as int) =~= pack_bytes(fo as nat, o));
        lemma_width_fits(fo as nat, o);
        lemma_pack_round_trip(fo as nat, o);
    } else if is_final {
        lemma_packed_width_range(fo as nat);
    }
}

/// A node written in the general encoding reads back.
pub proof fn lemma_any_round_trip(d: Seq<u8>, addr: int, is_final: bool, fo: u64, trans: Seq<Transition>)
    requires
        builder_node_ok(is_final, fo, trans, addr, addr),
        holds_any(d, addr, is_final, fo, trans),
    ensures
        decodes_to(
            d,
            addr + encode_any(addr, is_final, fo, trans).len() - 1,
            is_final,
            fo,
            trans,
            addr,
        ),
{
    let a = addr + encode_any(addr, is_final, fo, trans).len() - 1;
    lemma_any_header(d, addr, is_final, fo, trans);
    lemma_any_final_output(d, addr, is_final, fo, trans);
    assert forall|i: int| 0 <= i < any_count(d, a) implies #[trigger] delta_at(d, a, VERSION, i) <= end_at(
        d,
        a,
        VERSION,
    ) by {
        lemma_any_delta(d, addr, is_final, fo, trans, i);
    }
    assert forall|i: int| 0 <= i < trans.len() implies {
        &&& #[trigger] input_at(d, a, VERSION, i) == trans[i].inp
        &&& output_at(d, a, VERSION, i) == trans[i].out.0
        &&& trans_addr_at(d, a, VERSION, i) == trans[i].addr
    } by {
        lemma_any_input(d, addr, is_final, fo, trans, i);
        lemma_any_delta(d, addr, is_final, fo, trans, i);
        lemma_any_output(d, addr, is_final, fo, trans, i);
    }
}

/// The slot found for a byte is a real slot, and stands for that byte.
proof fn lemma_slot(inp: u8)
    ensures
        0 <= slot_of(inp) <= 63,
        slot_of(inp) != 0 ==> common_input_of(slot_of(inp)) == Some(inp),
        slot_of(inp) == 0 ==> common_input_of(slot_of(inp)) is None,
{
    lemma_slot_from(inp, 0);
}

proof fn lemma_slot_from(inp: u8, k: int)
    requires
        0 <= k <= 63,
    ensures
        slot_from(inp, k) == 0 || (k < slot_from(inp, k) <= 63 && common_table()[slot_from(inp, k) - 1]
            == inp),
    decreases 63 - k,
{
    if k < 63 {
        lemma_slot_from(inp, k + 1);
    }
}

/// A one-transition node written as such reads back.
pub proof fn lemma_one_round_trip(d: Seq<u8>, addr: int, t: Transition)
    requires
        builder_node_ok(false, 0, seq![t], addr, addr),
        0 <= addr,
        addr + encode_one(addr, t).len() <= d.len() <= u64::MAX,
        d.subrange(addr, addr + encode_one(addr, t).len()) == encode_one(addr, t),
    ensures
        decodes_to(d, addr + encode_one(addr, t).len() - 1, false, 0, seq![t], addr),
        kind_at(d, addr + encode_one(addr, t).len() - 1) == NodeKind::OneTrans,
{
    let o = t.out.0 as nat;
    let ow: nat = if o == 0 {
        0
    } else {
        packed_width(o)
    };
    let delta = delta_of(addr, t.addr as int);
    let dw = packed_width(delta);
    let idx = slot_of(t.inp);
    let lit: Seq<u8> = if idx == 0 {
        seq![t.inp]
    } else {
        Seq::empty()
    };
    let ps = (dw * 16 + ow) as u8;
    lemma_slot(t.inp);
    assert(seq![t][0] == t);
    let e = encode_one(addr, t);
    assert(e == pack_bytes(o, ow) + pack_bytes(delta, dw) + seq![ps] + lit + seq![(0x80 + idx) as u8]);
    lemma_packed_width_range(delta);
    lemma_packed_width_range(o);
    lemma_pack_bytes_len(o, ow);
    lemma_pack_bytes_len(delta, dw);
    let a = addr + e.len() - 1;
    lemma_read(d, addr, e, 0, e.len() as int);
    assert(d[a] == e[e.len() - 1]);
    assert(d[a - lit.len() - 1] == e[e.len() - 2 - lit.len()]);
    assert(ps / 16 == dw);
    assert(ps % 16 == ow);
    assert(kind_at(d, a) == NodeKind::OneTrans);
    assert(spill_len(d, a) == lit.len());
    assert(sizes_at(d, a) == ps);
    if idx == 0 {
        assert(e[e.len() - 2] == t.inp);
        assert(d[a - 1] == e[e.len() - 2]);
    }
    assert(input_at(d, a, VERSION, 0) == t.inp);
    lemma_read(d, addr, e, ow as int, (ow + dw) as int);
    assert(e.subrange(ow as int, (ow + dw) as int) =~= pack_bytes(delta, dw));
    lemma_width_fits(delta, dw);
    lemma_pack_round_trip(delta, dw);
    assert(delta_at(d, a, VERSION, 0) == delta);
    if ow != 0 {
        lemma_read(d, addr, e, 0, ow as int);
        assert(e.subrange(0, ow as int) =~= pack_bytes(o, ow));
        lemma_width_fits(o, ow);
        lemma_pack_round_trip(o, ow);
    }
    assert(seq![t][0] == t);
}

/// A one-transition node written as pointing to the record just below
/// reads back.
pub proof fn lemma_next_round_trip(d: Seq<u8>, addr: int, t: Transition)
    requires
        1 <= addr,
        t.out.0 == 0,
        t.addr == addr - 1,
        addr + encode_next(t.inp).len() <= d.len() <= u64::MAX,
        d.subrange(addr, addr + encode_next(t.inp).len()) == encode_next(t.inp),
    ensures
        decodes_to(d, addr + encode_next(t.inp).len() - 1, false, 0, seq![t], addr),
        kind_at(d, addr + encode_next(t.inp).len() - 1) == NodeKind::OneTransNext,
{
    let e = encode_next(t.inp);
    let idx = slot_of(t.inp);
    lemma_slot(t.inp);
    let a = addr + e.len() - 1;
    lemma_read(d, addr, e, 0, e.len() as int);
    assert(d[a] == e[e.len() - 1]);
    if idx == 0 {
        assert(d[a - 1] == t.inp);
    }
    assert(kind_at(d, a) == NodeKind::OneTransNext);
    assert(input_at(d, a, VERSION, 0) == t.inp);
    assert(seq![t][0] == t);
}

/// What `compile_to` writes for a node the builder can produce reads back
/// as that node: its transitions (input, output, target), finality, final
/// output and count. A node that takes no bytes is the empty address, which
/// reads as a non-final node with no transitions and no output.
pub proof fn lemma_node_round_trip(
    d: Seq<u8>,
    is_final: bool,
    fo: u64,
    trans: Seq<Transition>,
    last_addr: int,
    addr: int,
)
    requires
        builder_node_ok(is_final, fo, trans, last_addr, addr),
        addr + encode_node(is_final, fo, trans, last_addr, addr).len() <= d.len() <= u64::MAX,
        d.subrange(addr, addr + encode_node(is_final, fo, trans, last_addr, addr).len())
            == encode_node(is_final, fo, trans, last_addr, addr),
    ensures
        encode_node(is_final, fo, trans, last_addr, addr).len() == 0 ==> {
            &&& trans.len() == 0
            &&& !is_final
            &&& fo == 0
            &&& record_ok(d, EMPTY_ADDRESS as int, VERSION)
            &&& ntrans_at(d, EMPTY_ADDRESS as int) == 0
            &&& !is_final_at(d, EMPTY_ADDRESS as int)
            &&& final_output_at(d, EMPTY_ADDRESS as int, VERSION) == 0
        },
        encode_node(is_final, fo, trans, last_addr, addr).len() > 0 ==> decodes_to(
            d,
            addr + encode_node(is_final, fo, trans, last_addr, addr).len() - 1,
            is_final,
            fo,
            trans,
            addr,
        ),
{
    if trans.len() == 0 && !is_final && fo == 0 {
    } else if trans.len() != 1 || is_final {
        lemma_any_round_trip(d, addr, is_final, fo, trans);
    } else if trans[0].addr != last_addr || trans[0].out.0 != 0 {
        assert(trans =~= seq![trans[0]]);
        lemma_one_round_trip(d, addr, trans[0]);
    } else {
        assert(trans =~= seq![trans[0]]);
        lemma_next_round_trip(d, addr, trans[0]);
    }
    if encode_node(is_final, fo, trans, last_addr, addr).len() == 0 {
        if !(trans.len() == 0 && !is_final && fo == 0) {
            if trans.len() != 1 || is_final {
                assert(encode_any(addr, is_final, fo, trans).len() > 0);
            }
        }
    }
}

/// A non-final node whose one transition has a common input, no output and
/// the record just below as its target is written as a single state byte,
/// and reads back as that encoding.
pub proof fn lemma_next_is_one_byte(d: Seq<u8>, t: Transition, addr: int)
    requires
        1 <= addr,
        slot_of(t.inp) != 0,
        t.out.0 == 0,
        t.addr == addr - 1,
        addr + 1 <= d.len() <= u64::MAX,
        d.subrange(addr, addr + encode_node(false, 0, seq![t], addr - 1, addr).len()) == encode_node(
            false,
            0,
            seq![t],
            addr - 1,
            addr,
        ),
    ensures
        encode_node(false, 0, seq![t], addr - 1, addr) == encode_next(t.inp),
        encode_next(t.inp).len() == 1,
        kind_at(d, addr) == NodeKind::OneTransNext,
        decodes_to(d, addr, false, 0, seq![t], addr),
{
    assert(seq![t][0] == t);
    lemma_slot(t.inp);
    lemma_next_round_trip(d, addr, t);
}

/// Transition inputs strictly increase, as the builder orders them.
pub open spec fn inputs_increasing(trans: Seq<Transition>) -> bool {
    forall|i: int, j: int| 0 <= i < j < trans.len() ==> trans[i].inp < trans[j].inp
}

proof fn lemma_index_entry(trans: Seq<Transition>, b: int)
    requires
        trans.len() <= 256,
    ensures
        (exists|i: int| 0 <= i < trans.len() && trans[i].inp == b) ==> {
            &&& index_entry(trans, b) < trans.len()
            &&& trans[index_entry(trans, b) as int].inp == b
        },
        (forall|i: int| 0 <= i < trans.len() ==> trans[i].inp != b) ==> index_entry(trans, b) == 255,
    decreases trans.len(),
{
    if trans.len() > 0 {
        let p = trans.drop_last();
        lemma_index_entry(p, b);
        if trans.last().inp != b {
            if exists|i: int| 0 <= i < trans.len() && trans[i].inp == b {
                let i = choose|i: int| 0 <= i < trans.len() && trans[i].inp == b;
                assert(p[i] == trans[i]);
            }
            assert forall|i: int| 0 <= i < p.len() implies p[i] == trans[i] by {}
        }
    }
}

proof fn lemma_increasing_lower(trans: Seq<Transition>, i: int)
    requires
        inputs_increasing(trans),
        0 <= i < trans.len(),
    ensures
        trans[i].inp >= i,
    decreases i,
{
    if i > 0 {
        lemma_increasing_lower(trans, i - 1);
    }
}

proof fn lemma_increasing_upper(trans: Seq<Transition>, i: int)
    requires
        inputs_increasing(trans),
        0 <= i < trans.len(),
    ensures
        trans[i].inp <= 255 - (trans.len() - 1 - i),
    decreases trans.len() - i,
{
    if i < trans.len() - 1 {
        lemma_increasing_upper(trans, i + 1);
    }
}

/// With 256 increasing inputs, every byte has a transition.
proof fn lemma_all_bytes(trans: Seq<Transition>, b: int)
    requires
        inputs_increasing(trans),
        trans.len() == 256,
        0 <= b < 256,
    ensures
        trans[b].inp == b,
{
    lemma_increasing_lower(trans, b);
    lemma_increasing_upper(trans, b);
}

proof fn lemma_scan(d: Seq<u8>, base: int, trans: Seq<Transition>, b: u8, j: int)
    requires
        0 <= j <= trans.len(),
        forall|k: int| 0 <= k < trans.len() ==> d[base + k] == #[trigger] trans[trans.len() - 1 - k].inp,
    ensures
        scan_inputs(d, base, trans.len() as int, b, j) matches Some(i) ==> 0 <= i < trans.len()
            && trans[i].inp == b,
        scan_inputs(d, base, trans.len() as int, b, j) is None ==> forall|i: int|
            0 <= i < trans.len() - j ==> trans[i].inp != b,
    decreases trans.len() - j,
{
    let n = trans.len() as int;
    if j < n {
        lemma_scan(d, base, trans, b, j + 1);
        assert(d[base + j] == trans[n - 1 - j].inp);
    }
}

/// Looking an input byte up in a record that the builder wrote (inputs in
/// increasing order) finds the transition on that byte, and finds nothing
/// for a byte without one: through the index table of a node with more
/// than 32 transitions, by a scan of the inputs otherwise.
pub proof fn lemma_find_input_round_trip(
    d: Seq<u8>,
    is_final: bool,
    fo: u64,
    trans: Seq<Transition>,
    last_addr: int,
    addr: int,
    b: u8,
)
    requires
        builder_node_ok(is_final, fo, trans, last_addr, addr),
        inputs_increasing(trans),
        encode_node(is_final, fo, trans, last_addr, addr).len() > 0,
        addr + encode_node(is_final, fo, trans, last_addr, addr).len() <= d.len() <= u64::MAX,
        d.subrange(addr, addr + encode_node(is_final, fo, trans, last_addr, addr).len())
            == encode_node(is_final, fo, trans, last_addr, addr),
    ensures
        ({
            let a = addr + encode_node(is_final, fo, trans, last_addr, addr).len() - 1;
            &&& find_input_at(d, a, VERSION, b) matches Some(i) ==> 0 <= i < trans.len()
                && trans[i].inp == b
            &&& find_input_at(d, a, VERSION, b) is None ==> forall|i: int|
                0 <= i < trans.len() ==> trans[i].inp != b
        }),
{
    let a = addr + encode_node(is_final, fo, trans, last_addr, addr).len() - 1;
    if trans.len() == 0 && !is_final && fo == 0 {
    } else if trans.len() != 1 || is_final {
        assert(encode_node(is_final, fo, trans, last_addr, addr) == encode_any(addr, is_final, fo, trans));
        lemma_find_any(d, addr, is_final, fo, trans, b);
    } else if trans[0].addr != last_addr || trans[0].out.0 != 0 {
        assert(trans =~= seq![trans[0]]);
        lemma_one_round_trip(d, addr, trans[0]);
        assert(input_at(d, a, VERSION, 0) == trans[0].inp);
    } else {
        assert(trans =~= seq![trans[0]]);
        lemma_next_round_trip(d, addr, trans[0]);
        assert(input_at(d, a, VERSION, 0) == trans[0].inp);
    }
}

#[verifier::spinoff_prover]
#[verifier::rlimit(60)]
proof fn lemma_find_any(d: Seq<u8>, addr: int, is_final: bool, fo: u64, trans: Seq<Transition>, b: u8)
    requires
        builder_node_ok(is_final, fo, trans, addr, addr),
        holds_any(d, addr, is_final, fo, trans),
        inputs_increasing(trans),
    ensures
        ({
            let a = addr + encode_any(addr, is_final, fo, trans).len() - 1;
            &&& find_input_at(d, a, VERSION, b) matches Some(i) ==> 0 <= i < trans.len()
                && trans[i].inp == b
            &&& find_input_at(d, a, VERSION, b) is None ==> forall|i: int|
                0 <= i < trans.len() ==> trans[i].inp != b
        }),
{
    lemma_any_header(d, addr, is_final, fo, trans);
    let n = trans.len() as int;
    let o = any_osize(is_final, fo, trans);
    let t = delta_width(addr, trans);
    let h = any_head(is_final, fo, trans);
    let dd = rev_deltas(addr, trans, t);
    let ii = rev_inputs(trans);
    let x = index_part(trans);
    let c = count_part(trans.len());
    let st = any_state(is_final, trans.len());
    let ps = (t * 16 + o) as u8;
    let e = encode_any(addr, is_final, fo, trans);
    let a = addr + e.len() - 1;
    assert(e == h + dd + ii + x + seq![ps] + c + seq![st]);
    lemma_rev_inputs(trans);
    lemma_read(d, addr, e, 0, e.len() as int);
    let pi = h.len() + n * (t as int);
    if n > 32 {
        let px = pi + n;
        assert(d[addr + px + b] == e[px + b]);
        assert(e[px + b] == x[b as int]);
        assert(x[b as int] == index_entry(trans, b as int));
        lemma_index_entry(trans, b as int);
        if exists|i: int| 0 <= i < n && trans[i].inp == b {
        } else if n == 256 {
            lemma_all_bytes(trans, b as int);
        }
    } else {
        assert forall|k: int| 0 <= k < n implies d[addr + pi + k] == #[trigger] trans[n - 1 - k].inp by {
            assert(d[addr + pi + k] == e[pi + k]);
            assert(e[pi + k] == ii[k]);
            assert(ii[n - 1 - (n - 1 - k)] == trans[n - 1 - k].inp);
        }
        lemma_scan(d, addr + pi, trans, b, 0);
    }
}

} // verus!
