//! Writing one node record: the encoding is chosen by the node's shape and
//! the record is appended to a buffer, lowest address first.
use vstd::prelude::*;
use crate::common_inputs::{common_idx, common_table, is_common_idx};
use crate::layout::{EMPTY_ADDRESS, TRANS_INDEX_THRESHOLD};
use crate::node::{
    CompiledAddr, Output, Transition, PackSizes, StateOneTransNext, StateOneTrans, StateAnyTrans,
};
use crate::pack::{lemma_pack_bytes_len, pack_bytes, packed_width, pack_size, pack_uint, pack_uint_in, pow256};

verus! {

/// A node as the builder holds it before it is written.
#[derive(Clone, Debug)]
pub struct BuilderNode {
    pub is_final: bool,
    pub final_output: Output,
    pub trans: Vec<Transition>,
}

/// The slot of `inp` in the table of common inputs, searched from entry `k`
/// on; `0` when it has none.
pub open spec fn slot_from(inp: u8, k: int) -> int
    decreases 63 - k,
{
    if k >= 63 {
        0
    } else if common_table()[k] == inp {
        k + 1
    } else {
        slot_from(inp, k + 1)
    }
}

pub open spec fn slot_of(inp: u8) -> int {
    slot_from(inp, 0)
}

/// What a transition's target is stored as: its distance below the node's
/// first byte, or the empty address itself.
pub open spec fn delta_of(node_addr: int, target: int) -> nat {
    if target == EMPTY_ADDRESS {
        EMPTY_ADDRESS as nat
    } else {
        (node_addr - target) as nat
    }
}

/// The record of a one-transition node whose target is the record just
/// below it.
pub open spec fn encode_next(inp: u8) -> Seq<u8> {
    let idx = slot_of(inp);
    if idx == 0 {
        seq![inp, 0xC0u8]
    } else {
        seq![(0xC0 + idx) as u8]
    }
}

/// The record of a one-transition node.
pub open spec fn encode_one(addr: int, t: Transition) -> Seq<u8> {
    let o = t.out.0 as nat;
    let ow: nat = if o == 0 {
        0
    } else {
        packed_width(o)
    };
    let delta = delta_of(addr, t.addr as int);
    let dw = packed_width(delta);
    let idx = slot_of(t.inp);
    pack_bytes(o, ow) + pack_bytes(delta, dw) + seq![(dw * 16 + ow) as u8] + (if idx == 0 {
        seq![t.inp]
    } else {
        Seq::empty()
    }) + seq![(0x80 + idx) as u8]
}

pub open spec fn max_nat(a: nat, b: nat) -> nat {
    if a >= b {
        a
    } else {
        b
    }
}

/// Whether some transition has a nonzero output.
pub open spec fn any_out(trans: Seq<Transition>) -> bool {
    exists|i: int| 0 <= i < trans.len() && (#[trigger] trans[i]).out.0 != 0
}

/// The widest packed width among the transitions' outputs.
pub open spec fn out_width(trans: Seq<Transition>) -> nat
    decreases trans.len(),
{
    if trans.len() == 0 {
        0
    } else {
        max_nat(out_width(trans.drop_last()), packed_width(trans.last().out.0 as nat))
    }
}

/// The widest packed width among the transitions' deltas.
pub open spec fn delta_width(addr: int, trans: Seq<Transition>) -> nat
    decreases trans.len(),
{
    if trans.len() == 0 {
        0
    } else {
        max_nat(
            delta_width(addr, trans.drop_last()),
            packed_width(delta_of(addr, trans.last().addr as int)),
        )
    }
}

/// Outputs, `w` bytes each, highest transition index first.
pub open spec fn rev_outputs(trans: Seq<Transition>, w: nat) -> Seq<u8>
    decreases trans.len(),
{
    if trans.len() == 0 {
        Seq::empty()
    } else {
        rev_outputs(trans.drop_first(), w) + pack_bytes(trans[0].out.0 as nat, w)
    }
}

/// Deltas, `w` bytes each, highest transition index first.
pub open spec fn rev_deltas(addr: int, trans: Seq<Transition>, w: nat) -> Seq<u8>
    decreases trans.len(),
{
    if trans.len() == 0 {
        Seq::empty()
    } else {
        rev_deltas(addr, trans.drop_first(), w) + pack_bytes(delta_of(addr, trans[0].addr as int), w)
    }
}

/// Input bytes, highest transition index first.
pub open spec fn rev_inputs(trans: Seq<Transition>) -> Seq<u8>
    decreases trans.len(),
{
    if trans.len() == 0 {
        Seq::empty()
    } else {
        rev_inputs(trans.drop_first()) + seq![trans[0].inp]
    }
}

/// The index-table entry for input `b`: the last transition on `b`, or 255.
pub open spec fn index_entry(trans: Seq<Transition>, b: int) -> u8
    decreases trans.len(),
{
    if trans.len() == 0 {
        255
    } else if trans.last().inp == b {
        (trans.len() - 1) as u8
    } else {
        index_entry(trans.drop_last(), b)
    }
}

pub open spec fn index_table(trans: Seq<Transition>) -> Seq<u8> {
    Seq::new(256, |b: int| index_entry(trans, b))
}

/// The output width of an any-transition record.
pub open spec fn any_osize(is_final: bool, final_output: u64, trans: Seq<Transition>) -> nat {
    if final_output != 0 || any_out(trans) {
        max_nat(packed_width(final_output as nat), out_width(trans))
    } else {
        0
    }
}

/// Final output and outputs of a record in the general encoding: present
/// only when some output is nonzero.
pub open spec fn any_head(is_final: bool, final_output: u64, trans: Seq<Transition>) -> Seq<u8> {
    let o = any_osize(is_final, final_output, trans);
    if final_output != 0 || any_out(trans) {
        (if is_final {
            pack_bytes(final_output as nat, o)
        } else {
            Seq::empty()
        }) + rev_outputs(trans, o)
    } else {
        Seq::empty()
    }
}

/// The index table, present in nodes with many transitions.
pub open spec fn index_part(trans: Seq<Transition>) -> Seq<u8> {
    if trans.len() > TRANS_INDEX_THRESHOLD {
        index_table(trans)
    } else {
        Seq::empty()
    }
}

/// The spilled count byte, present when the count does not fit in the state
/// byte; 256 is written as 1.
pub open spec fn count_part(n: nat) -> Seq<u8> {
    if 1 <= n <= 63 {
        Seq::empty()
    } else if n == 256 {
        seq![1u8]
    } else {
        seq![n as u8]
    }
}

/// The state byte of a record in the general encoding.
pub open spec fn any_state(is_final: bool, n: nat) -> u8 {
    ((if is_final {
        64int
    } else {
        0
    }) + (if 1 <= n <= 63 {
        n as int
    } else {
        0
    })) as u8
}

/// The record of a node in the general encoding.
pub open spec fn encode_any(addr: int, is_final: bool, final_output: u64, trans: Seq<Transition>) -> Seq<u8> {
    let o = any_osize(is_final, final_output, trans);
    let t = delta_width(addr, trans);
    any_head(is_final, final_output, trans) + rev_deltas(addr, trans, t) + rev_inputs(trans)
        + index_part(trans) + seq![(t * 16 + o) as u8] + count_part(trans.len()) + seq![
        any_state(is_final, trans.len()),
    ]
}

/// Which encoding a node gets.
pub open spec fn encode_node(
    is_final: bool,
    final_output: u64,
    trans: Seq<Transition>,
    last_addr: int,
    addr: int,
) -> Seq<u8> {
    if trans.len() == 0 && !is_final && final_output == 0 {
        Seq::empty()
    } else if trans.len() != 1 || is_final {
        encode_any(addr, is_final, final_output, trans)
    } else if trans[0].addr != last_addr || trans[0].out.0 != 0 {
        encode_one(addr, trans[0])
    } else {
        encode_next(trans[0].inp)
    }
}

/// A transition whose input has no slot in the table of common inputs takes
/// exactly one byte more than the same transition on a common input, in
/// either one-transition encoding.
pub proof fn lemma_uncommon_input_extra_byte(addr: int, t: Transition, u: Transition)
    requires
        t.out == u.out,
        t.addr == u.addr,
        slot_of(t.inp) == 0,
        slot_of(u.inp) != 0,
    ensures
        encode_one(addr, t).len() == encode_one(addr, u).len() + 1,
        encode_next(t.inp).len() == encode_next(u.inp).len() + 1,
{
    let o = t.out.0 as nat;
    let ow: nat = if o == 0 {
        0
    } else {
        packed_width(o)
    };
    let delta = delta_of(addr, t.addr as int);
    lemma_pack_bytes_len(o, ow);
    lemma_pack_bytes_len(delta, packed_width(delta));
}

pub proof fn lemma_slot_of(inp: u8, idx: int)
    requires
        is_common_idx(inp, idx),
    ensures
        slot_of(inp) == idx,
{
    assert forall|k: int| 0 <= k <= 63 implies slot_from(inp, k) == (if idx != 0 && k < idx {
        idx
    } else {
        0
    }) by {
        lemma_slot_from(inp, idx, k);
    }
}

proof fn lemma_slot_from(inp: u8, idx: int, k: int)
    requires
        is_common_idx(inp, idx),
        0 <= k <= 63,
    ensures
        slot_from(inp, k) == (if idx != 0 && k < idx {
            idx
        } else {
            0
        }),
    decreases 63 - k,
{
    if k < 63 {
        lemma_slot_from(inp, idx, k + 1);
    }
}

/// The stored form of `trans_addr` for a node written at `node_addr`.
fn delta(node_addr: CompiledAddr, trans_addr: CompiledAddr) -> (r: u64)
    requires
        trans_addr <= node_addr,
    ensures
        r == delta_of(node_addr as int, trans_addr as int),
{
    if trans_addr == EMPTY_ADDRESS {
        EMPTY_ADDRESS
    } else {
        node_addr - trans_addr
    }
}

/// The number of bytes `pack_delta` writes.
pub(crate) fn pack_delta_size(node_addr: CompiledAddr, trans_addr: CompiledAddr) -> (r: u8)
    requires
        trans_addr <= node_addr,
    ensures
        r as nat == packed_width(delta_of(node_addr as int, trans_addr as int)),
        1 <= r <= 8,
{
    pack_size(delta(node_addr, trans_addr))
}

/// Appends the stored form of `trans_addr` in `nbytes` bytes.
pub(crate) fn pack_delta_in(
    wtr: &mut Vec<u8>,
    node_addr: CompiledAddr,
    trans_addr: CompiledAddr,
    nbytes: u8,
)
    requires
        trans_addr <= node_addr,
        nbytes <= 8,
    ensures
        final(wtr)@ == old(wtr)@ + pack_bytes(delta_of(node_addr as int, trans_addr as int), nbytes as nat),
{
    pack_uint_in(wtr, delta(node_addr, trans_addr), nbytes)
}

/// Appends the stored form of `trans_addr` in the fewest bytes and returns
/// their number.
pub(crate) fn pack_delta(wtr: &mut Vec<u8>, node_addr: CompiledAddr, trans_addr: CompiledAddr) -> (r: u8)
    requires
        trans_addr <= node_addr,
    ensures
        r as nat == packed_width(delta_of(node_addr as int, trans_addr as int)),
        final(wtr)@ == old(wtr)@ + pack_bytes(delta_of(node_addr as int, trans_addr as int), r as nat),
{
    let nbytes = pack_delta_size(node_addr, trans_addr);
    pack_delta_in(wtr, node_addr, trans_addr, nbytes);
    nbytes
}

impl StateOneTransNext {
    pub(crate) fn new() -> (r: Self)
        ensures
            r.0 == 0xC0,
    {
        StateOneTransNext(0xC0)
    }

    pub(crate) fn set_common_input(&mut self, input: u8)
        requires
            old(self).0 / 64 == 3,
        ensures
            final(self).0 == 0xC0 + slot_of(input),
            0 <= slot_of(input) <= 63,
            final(self).0 % 64 == slot_of(input),
    {
        let idx = common_idx(input);
        proof {
            lemma_slot_of(input, idx as int);
        }
        self.0 = 0xC0 + idx;
    }

    /// Appends the record of a node whose one transition, on `input`, leads
    /// to the record just below.
    pub(crate) fn compile(wtr: &mut Vec<u8>, input: u8)
        ensures
            final(wtr)@ == old(wtr)@ + encode_next(input),
    {
        let mut state = StateOneTransNext::new();
        state.set_common_input(input);
        if state.common_input().is_none() {
            wtr.push(input);
        }
        wtr.push(state.0);
        proof {
            assert(wtr@ =~= old(wtr)@ + encode_next(input));
        }
    }
}

impl StateOneTrans {
    pub(crate) fn new() -> (r: Self)
        ensures
            r.0 == 0x80,
    {
        StateOneTrans(0x80)
    }

    pub(crate) fn set_common_input(&mut self, input: u8)
        requires
            old(self).0 / 64 == 2,
        ensures
            final(self).0 == 0x80 + slot_of(input),
            0 <= slot_of(input) <= 63,
            final(self).0 % 64 == slot_of(input),
    {
        let idx = common_idx(input);
        proof {
            lemma_slot_of(input, idx as int);
        }
        self.0 = 0x80 + idx;
    }

    /// Appends the record of a node with the one transition `trans`.
    pub(crate) fn compile(wtr: &mut Vec<u8>, addr: CompiledAddr, trans: Transition)
        requires
            trans.addr <= addr,
        ensures
            final(wtr)@ == old(wtr)@ + encode_one(addr as int, trans),
    {
        let out = trans.out.value();
        let output_pack_size = if out == 0 {
            0
        } else {
            pack_uint(wtr, out)
        };
        let trans_pack_size = pack_delta(wtr, addr, trans.addr);
        let mut pack_sizes = PackSizes::new();
        pack_sizes.set_output_pack_size(output_pack_size);
        pack_sizes.set_transition_pack_size(trans_pack_size);
        wtr.push(pack_sizes.encode());
        let mut state = StateOneTrans::new();
        state.set_common_input(trans.inp);
        if state.common_input().is_none() {
            wtr.push(trans.inp);
        }
        wtr.push(state.0);
        proof {
            if out == 0 {
                assert(pack_bytes(0, 0) =~= Seq::<u8>::empty());
            }
            assert(pack_sizes.0 == trans_pack_size * 16 + output_pack_size) by (nonlinear_arith)
                requires
                    pack_sizes.0 / 16 == trans_pack_size,
                    pack_sizes.0 % 16 == output_pack_size,
            ;
            assert(wtr@ =~= old(wtr)@ + encode_one(addr as int, trans));
        }
    }
}

/// Appends the outputs of `trans`, `w` bytes each, highest index first.
fn write_rev_outputs(wtr: &mut Vec<u8>, trans: &Vec<Transition>, w: u8)
    requires
        w <= 8,
    ensures
        final(wtr)@ == old(wtr)@ + rev_outputs(trans@, w as nat),
{
    let n = trans.len();
    let mut i: usize = n;
    proof {
        assert(trans@.subrange(n as int, n as int) =~= Seq::<Transition>::empty());
        assert(wtr@ =~= old(wtr)@ + rev_outputs(trans@.subrange(i as int, n as int), w as nat));
    }
    while i > 0
        invariant
            i <= n == trans@.len(),
            w <= 8,
            wtr@ == old(wtr)@ + rev_outputs(trans@.subrange(i as int, n as int), w as nat),
        decreases i,
    {
        pack_uint_in(wtr, trans[i - 1].out.value(), w);
        proof {
            let s = trans@.subrange(i - 1, n as int);
            assert(s.drop_first() =~= trans@.subrange(i as int, n as int));
            assert(wtr@ =~= old(wtr)@ + rev_outputs(s, w as nat));
        }
        i = i - 1;
    }
    proof {
        assert(trans@.subrange(0, n as int) =~= trans@);
    }
}

/// Appends the deltas of `trans`, `w` bytes each, highest index first.
fn write_rev_deltas(wtr: &mut Vec<u8>, addr: CompiledAddr, trans: &Vec<Transition>, w: u8)
    requires
        w <= 8,
        forall|k: int| 0 <= k < trans@.len() ==> (#[trigger] trans@[k]).addr <= addr,
    ensures
        final(wtr)@ == old(wtr)@ + rev_deltas(addr as int, trans@, w as nat),
{
    let n = trans.len();
    let mut i: usize = n;
    proof {
        assert(trans@.subrange(n as int, n as int) =~= Seq::<Transition>::empty());
        assert(wtr@ =~= old(wtr)@ + rev_deltas(addr as int, trans@.subrange(i as int, n as int), w as nat));
    }
    while i > 0
        invariant
            i <= n == trans@.len(),
            w <= 8,
            forall|k: int| 0 <= k < trans@.len() ==> (#[trigger] trans@[k]).addr <= addr,
            wtr@ == old(wtr)@ + rev_deltas(addr as int, trans@.subrange(i as int, n as int), w as nat),
        decreases i,
    {
        pack_delta_in(wtr, addr, trans[i - 1].addr, w);
        proof {
            let s = trans@.subrange(i - 1, n as int);
            assert(s.drop_first() =~= trans@.subrange(i as int, n as int));
            assert(wtr@ =~= old(wtr)@ + rev_deltas(addr as int, s, w as nat));
        }
        i = i - 1;
    }
    proof {
        assert(trans@.subrange(0, n as int) =~= trans@);
    }
}

/// Appends the input bytes of `trans`, highest index first.
fn write_rev_inputs(wtr: &mut Vec<u8>, trans: &Vec<Transition>)
    ensures
        final(wtr)@ == old(wtr)@ + rev_inputs(trans@),
{
    let n = trans.len();
    let mut i: usize = n;
    proof {
        assert(trans@.subrange(n as int, n as int) =~= Seq::<Transition>::empty());
        assert(wtr@ =~= old(wtr)@ + rev_inputs(trans@.subrange(i as int, n as int)));
    }
    while i > 0
        invariant
            i <= n == trans@.len(),
            wtr@ == old(wtr)@ + rev_inputs(trans@.subrange(i as int, n as int)),
        decreases i,
    {
        wtr.push(trans[i - 1].inp);
        proof {
            let s = trans@.subrange(i - 1, n as int);
            assert(s.drop_first() =~= trans@.subrange(i as int, n as int));
            assert(wtr@ =~= old(wtr)@ + rev_inputs(s));
        }
        i = i - 1;
    }
    proof {
        assert(trans@.subrange(0, n as int) =~= trans@);
    }
}

/// Appends the 256-entry table from input byte to the index of the last
/// transition on it (255 where there is none).
fn write_index(wtr: &mut Vec<u8>, trans: &Vec<Transition>)
    requires
        trans@.len() <= 256,
    ensures
        final(wtr)@ == old(wtr)@ + index_table(trans@),
{
    let mut index: Vec<u8> = Vec::new();
    let mut b: usize = 0;
    while b < 256
        invariant
            b <= 256,
            index@.len() == b,
            forall|k: int| 0 <= k < b ==> index@[k] == 255,
        decreases 256 - b,
    {
        index.push(255);
        b = b + 1;
    }
    let n = trans.len();
    let mut i: usize = 0;
    proof {
        assert(index@ =~= index_table(trans@.subrange(0, 0)));
    }
    while i < n
        invariant
            i <= n == trans@.len() <= 256,
            index@ == index_table(trans@.subrange(0, i as int)),
        decreases n - i,
    {
        let t = trans[i];
        index.set(t.inp as usize, i as u8);
        proof {
            let s = trans@.subrange(0, i + 1);
            assert(s.drop_last() =~= trans@.subrange(0, i as int));
            assert(s.last() == t);
            assert(index@ =~= index_table(s));
        }
        i = i + 1;
    }
    proof {
        assert(trans@.subrange(0, n as int) =~= trans@);
    }
    let mut k: usize = 0;
    while k < 256
        invariant
            k <= 256,
            index@.len() == 256,
            index@ == index_table(trans@),
            wtr@ == old(wtr)@ + index@.subrange(0, k as int),
        decreases 256 - k,
    {
        wtr.push(index[k]);
        k = k + 1;
        proof {
            assert(wtr@ =~= old(wtr)@ + index@.subrange(0, k as int));
        }
    }
    proof {
        assert(index@.subrange(0, 256) =~= index@);
    }
}

impl StateAnyTrans {
    pub(crate) fn new() -> (r: Self)
        ensures
            r.0 == 0,
    {
        StateAnyTrans(0)
    }

    pub(crate) fn set_final_state(&mut self, yes: bool)
        requires
            old(self).0 < 64,
        ensures
            final(self).0 == old(self).0 + (if yes { 64int } else { 0int }),
    {
        if yes {
            self.0 = self.0 + 64;
        }
    }

    pub(crate) fn set_state_ntrans(&mut self, n: u8)
        ensures
            n <= 63 ==> final(self).0 == (old(self).0 / 64) * 64 + n,
            n > 63 ==> final(self).0 == old(self).0,
    {
        if n <= 63 {
            self.0 = (self.0 / 64) * 64 + n;
        }
    }

    /// Appends the record of `node` in the general encoding.
    #[verifier::rlimit(60)]
    pub(crate) fn compile(wtr: &mut Vec<u8>, addr: CompiledAddr, node: &BuilderNode)
        requires
            node.trans@.len() <= 256,
            forall|k: int| 0 <= k < node.trans@.len() ==> (#[trigger] node.trans@[k]).addr <= addr,
        ensures
            final(wtr)@ == old(wtr)@ + encode_any(
                addr as int,
                node.is_final,
                node.final_output.0,
                node.trans@,
            ),
    {
        let ghost trans = node.trans@;
        let n = node.trans.len();
        let (tsize, osize, any_outs) = measure(addr, &node.trans, node.final_output.value());
        let mut pack_sizes = PackSizes::new();
        if any_outs {
            pack_sizes.set_output_pack_size(osize);
        } else {
            pack_sizes.set_output_pack_size(0);
        }
        pack_sizes.set_transition_pack_size(tsize);
        let mut state = StateAnyTrans::new();
        state.set_final_state(node.is_final);
        if n <= 63 {
            state.set_state_ntrans(n as u8);
        }
        if any_outs {
            if node.is_final {
                pack_uint_in(wtr, node.final_output.value(), osize);
            }
            write_rev_outputs(wtr, &node.trans, osize);
        }
        assert(wtr@ =~= old(wtr)@ + any_head(node.is_final, node.final_output.0, trans));
        let ghost w1 = wtr@;
        write_rev_deltas(wtr, addr, &node.trans, tsize);
        write_rev_inputs(wtr, &node.trans);
        let ghost w2 = wtr@;
        if n > TRANS_INDEX_THRESHOLD as usize {
            write_index(wtr, &node.trans);
        }
        assert(wtr@ =~= w2 + index_part(trans));
        let ghost w3 = wtr@;
        wtr.push(pack_sizes.encode());
        if state.state_ntrans().is_none() {
            if n == 256 {
                wtr.push(1);
            } else {
                wtr.push(n as u8);
            }
        }
        assert(wtr@ =~= w3 + seq![pack_sizes.0] + count_part(n as nat));
        wtr.push(state.0);
        proof {
            let ps = pack_sizes.0;
            let o = any_osize(node.is_final, node.final_output.0, trans);
            if any_outs {
                assert(ps == tsize * 16 + osize) by (nonlinear_arith)
                    requires
                        ps / 16 == tsize,
                        ps % 16 == osize,
                ;
            } else {
                assert(ps == tsize * 16) by (nonlinear_arith)
                    requires
                        ps / 16 == tsize,
                        ps % 16 == 0,
                ;
            }
            assert(ps == tsize * 16 + o);
            assert(state.0 == any_state(node.is_final, n as nat));
            assert(wtr@ =~= old(wtr)@ + encode_any(
                addr as int,
                node.is_final,
                node.final_output.0,
                trans,
            ));
        }
    }
}

/// The delta width, output width and "some output is nonzero" of a node
/// in the general encoding; the output width counts the final output too.
fn measure(addr: CompiledAddr, trans: &Vec<Transition>, final_output: u64) -> (r: (u8, u8, bool))
    requires
        forall|k: int| 0 <= k < trans@.len() ==> (#[trigger] trans@[k]).addr <= addr,
    ensures
        r.0 as nat == delta_width(addr as int, trans@),
        r.2 == (final_output != 0 || any_out(trans@)),
        r.2 ==> r.1 as nat == max_nat(packed_width(final_output as nat), out_width(trans@)),
        r.0 <= 8,
        r.1 <= 8,
{
    let n = trans.len();
    let mut tsize: u8 = 0;
    let mut osize: u8 = pack_size(final_output);
    let mut any_outs = final_output != 0;
    let mut i: usize = 0;
    proof {
        assert(trans@.subrange(0, 0) =~= Seq::<Transition>::empty());
    }
    while i < n
        invariant
            i <= n == trans@.len(),
            forall|k: int| 0 <= k < trans@.len() ==> (#[trigger] trans@[k]).addr <= addr,
            tsize as nat == delta_width(addr as int, trans@.subrange(0, i as int)),
            osize as nat == max_nat(
                packed_width(final_output as nat),
                out_width(trans@.subrange(0, i as int)),
            ),
            any_outs == (final_output != 0 || any_out(trans@.subrange(0, i as int))),
            tsize <= 8,
            1 <= osize <= 8,
        decreases n - i,
    {
        let t = trans[i];
        let ts = pack_delta_size(addr, t.addr);
        if ts > tsize {
            tsize = ts;
        }
        let os = pack_size(t.out.value());
        if os > osize {
            osize = os;
        }
        any_outs = any_outs || t.out.0 != 0;
        proof {
            let s = trans@.subrange(0, i + 1);
            let p = trans@.subrange(0, i as int);
            assert(s.drop_last() =~= p);
            assert(s.last() == t);
            if any_out(p) {
                let w = choose|w: int| 0 <= w < p.len() && (#[trigger] p[w]).out.0 != 0;
                assert(s[w] == p[w]);
            }
            if t.out.0 != 0 {
                assert(s[i as int] == t);
            }
            if any_out(s) {
                let w = choose|w: int| 0 <= w < s.len() && (#[trigger] s[w]).out.0 != 0;
                if w < i {
                    assert(p[w] == s[w]);
                }
            }
        }
        i = i + 1;
    }
    proof {
        assert(trans@.subrange(0, n as int) =~= trans@);
    }
    (tsize, osize, any_outs)
}

impl BuilderNode {
    /// Appends the record of this node, to be written at `addr`, to `wtr`.
    /// `last_addr` is the address of the last byte written before it (or not
    /// below `addr` when there is none). A
    /// node with no transitions that is neither final nor has an output
    /// takes no bytes: it is the empty address.
    pub fn compile_to(&self, wtr: &mut Vec<u8>, last_addr: CompiledAddr, addr: CompiledAddr)
        requires
            self.trans@.len() <= 256,
            forall|k: int| 0 <= k < self.trans@.len() ==> (#[trigger] self.trans@[k]).addr <= addr,
            last_addr + 1 == addr || last_addr >= addr,
        ensures
            final(wtr)@ == old(wtr)@ + encode_node(
                self.is_final,
                self.final_output.0,
                self.trans@,
                last_addr as int,
                addr as int,
            ),
    {
        if self.trans.len() == 0 && !self.is_final && self.final_output.is_zero() {
            proof {
                assert(wtr@ =~= old(wtr)@ + Seq::<u8>::empty());
            }
        } else if self.trans.len() != 1 || self.is_final {
            StateAnyTrans::compile(wtr, addr, self);
        } else if self.trans[0].addr != last_addr || !self.trans[0].out.is_zero() {
            StateOneTrans::compile(wtr, addr, self.trans[0]);
        } else {
            StateOneTransNext::compile(wtr, self.trans[0].inp);
        }
    }
}

} // verus!
