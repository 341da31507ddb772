//! The meaning of the bytes of a node record, read backwards from the node's
//! address (its last byte).
//!
//! The state byte at the address tells the encoding apart by its top two
//! bits: `11` one transition to the preceding record, `10` one transition,
//! otherwise any number of transitions, with bit 6 as the final flag. Every
//! function here takes the whole buffer `d`, the node address `a` and the
//! format version `v`.
use vstd::prelude::*;
use crate::common_inputs::common_input_of;
use crate::pack::le_value;

verus! {

/// The address that stands for "no node": the empty, non-final node, and a
/// transition without a target.
pub const EMPTY_ADDRESS: u64 = 0;

/// Nodes with more transitions than this carry an input-to-index table (from
/// format version 2 on).
pub const TRANS_INDEX_THRESHOLD: u64 = 32;

/// The encodings a node record can have.
#[derive(Clone, Copy, Debug, PartialEq, Eq, Structural)]
pub enum NodeKind {
    EmptyFinal,
    OneTransNext,
    OneTrans,
    AnyTrans,
}

pub open spec fn kind_at(d: Seq<u8>, a: int) -> NodeKind {
    if a == EMPTY_ADDRESS {
        NodeKind::EmptyFinal
    } else if d[a] / 64 == 3 {
        NodeKind::OneTransNext
    } else if d[a] / 64 == 2 {
        NodeKind::OneTrans
    } else {
        NodeKind::AnyTrans
    }
}

/// One byte before the state byte holds a literal input (one-transition
/// encodings) or the transition count (any-transition encoding) exactly when
/// the low six bits of the state byte are zero.
pub open spec fn spill_len(d: Seq<u8>, a: int) -> int {
    if d[a] % 64 == 0 {
        1
    } else {
        0
    }
}

/// The pack-size byte: the byte before the spilled byte, if any.
pub open spec fn sizes_at(d: Seq<u8>, a: int) -> int {
    d[a - spill_len(d, a) - 1] as int
}

/// Width of the address deltas (the high four bits of the pack sizes).
pub open spec fn tsize_at(d: Seq<u8>, a: int) -> int {
    sizes_at(d, a) / 16
}

/// Width of the outputs (the low four bits of the pack sizes).
pub open spec fn osize_at(d: Seq<u8>, a: int) -> int {
    sizes_at(d, a) % 16
}

/// The transition count of an any-transition node; a spilled `1` means 256.
pub open spec fn any_count(d: Seq<u8>, a: int) -> int {
    if d[a] % 64 != 0 {
        (d[a] % 64) as int
    } else if d[a - 1] == 1 {
        256
    } else {
        d[a - 1] as int
    }
}

/// The size of the input-to-index table of a node with `n` transitions.
pub open spec fn index_size(v: u64, n: int) -> int {
    if v >= 2 && n > TRANS_INDEX_THRESHOLD {
        256
    } else {
        0
    }
}

/// The little-endian value of the `w` bytes at `at`.
pub open spec fn le_at(d: Seq<u8>, at: int, w: int) -> int {
    le_value(d.subrange(at, at + w)) as int
}

/// The target that a stored delta denotes, for a record starting at `end`.
pub open spec fn target_of(delta: int, end: int) -> int {
    if delta == EMPTY_ADDRESS {
        EMPTY_ADDRESS as int
    } else {
        end - delta
    }
}

pub open spec fn ntrans_at(d: Seq<u8>, a: int) -> int {
    match kind_at(d, a) {
        NodeKind::EmptyFinal => 0,
        NodeKind::OneTransNext => 1,
        NodeKind::OneTrans => 1,
        NodeKind::AnyTrans => any_count(d, a),
    }
}

pub open spec fn is_final_at(d: Seq<u8>, a: int) -> bool {
    kind_at(d, a) == NodeKind::AnyTrans && (d[a] / 64) % 2 == 1
}

/// Bytes taken by inputs, index table and address deltas of an
/// any-transition node.
pub open spec fn trans_block_size(d: Seq<u8>, a: int, v: u64) -> int {
    let n = any_count(d, a);
    n + n * tsize_at(d, a) + index_size(v, n)
}

/// The lowest address of the record.
pub open spec fn end_at(d: Seq<u8>, a: int, v: u64) -> int {
    match kind_at(d, a) {
        NodeKind::EmptyFinal => EMPTY_ADDRESS as int,
        NodeKind::OneTransNext => a - spill_len(d, a),
        NodeKind::OneTrans => a - spill_len(d, a) - 1 - tsize_at(d, a) - osize_at(d, a),
        NodeKind::AnyTrans => {
            let n = any_count(d, a);
            let o = osize_at(d, a);
            a - spill_len(d, a) - 1 - trans_block_size(d, a, v) - n * o - (if is_final_at(d, a) {
                o
            } else {
                0
            })
        },
    }
}

pub open spec fn final_output_at(d: Seq<u8>, a: int, v: u64) -> int {
    if is_final_at(d, a) && osize_at(d, a) != 0 {
        le_at(d, end_at(d, a, v), osize_at(d, a))
    } else {
        0
    }
}

/// Where the `i`-th input byte of an any-transition node is stored; inputs
/// are written highest index first.
pub open spec fn any_input_pos(d: Seq<u8>, a: int, v: u64, i: int) -> int {
    a - spill_len(d, a) - 1 - index_size(v, any_count(d, a)) - i - 1
}

/// Where the `i`-th address delta of an any-transition node starts.
pub open spec fn any_delta_pos(d: Seq<u8>, a: int, v: u64, i: int) -> int {
    let n = any_count(d, a);
    let t = tsize_at(d, a);
    a - spill_len(d, a) - 1 - index_size(v, n) - n - i * t - t
}

/// Where the `i`-th output of an any-transition node starts.
pub open spec fn any_output_pos(d: Seq<u8>, a: int, v: u64, i: int) -> int {
    let o = osize_at(d, a);
    a - spill_len(d, a) - 1 - trans_block_size(d, a, v) - i * o - o
}

/// Where the address delta of a one-transition node starts.
pub open spec fn one_delta_pos(d: Seq<u8>, a: int) -> int {
    a - spill_len(d, a) - 1 - tsize_at(d, a)
}

pub open spec fn input_at(d: Seq<u8>, a: int, v: u64, i: int) -> u8 {
    match kind_at(d, a) {
        NodeKind::AnyTrans => d[any_input_pos(d, a, v, i)],
        NodeKind::EmptyFinal => 0,
        _ => match common_input_of((d[a] % 64) as int) {
            Some(b) => b,
            None => d[a - 1],
        },
    }
}

pub open spec fn output_at(d: Seq<u8>, a: int, v: u64, i: int) -> int {
    match kind_at(d, a) {
        NodeKind::OneTrans => if osize_at(d, a) == 0 {
            0
        } else {
            le_at(d, one_delta_pos(d, a) - osize_at(d, a), osize_at(d, a))
        },
        NodeKind::AnyTrans => if osize_at(d, a) == 0 {
            0
        } else {
            le_at(d, any_output_pos(d, a, v, i), osize_at(d, a))
        },
        _ => 0,
    }
}

/// The stored delta of transition `i`.
pub open spec fn delta_at(d: Seq<u8>, a: int, v: u64, i: int) -> int {
    match kind_at(d, a) {
        NodeKind::OneTrans => le_at(d, one_delta_pos(d, a), tsize_at(d, a)),
        NodeKind::AnyTrans => le_at(d, any_delta_pos(d, a, v, i), tsize_at(d, a)),
        _ => 0,
    }
}

pub open spec fn trans_addr_at(d: Seq<u8>, a: int, v: u64, i: int) -> int {
    match kind_at(d, a) {
        NodeKind::OneTransNext => end_at(d, a, v) - 1,
        NodeKind::EmptyFinal => 0,
        _ => target_of(delta_at(d, a, v, i), end_at(d, a, v)),
    }
}

/// Linear search of the `n` stored inputs starting at `base` (highest
/// transition index first), from position `j` on.
pub open spec fn scan_inputs(d: Seq<u8>, base: int, n: int, b: u8, j: int) -> Option<int>
    decreases n - j,
{
    if j >= n {
        None
    } else if d[base + j] == b {
        Some(n - j - 1)
    } else {
        scan_inputs(d, base, n, b, j + 1)
    }
}

/// The transition that input `b` selects.
pub open spec fn find_input_at(d: Seq<u8>, a: int, v: u64, b: u8) -> Option<int> {
    match kind_at(d, a) {
        NodeKind::EmptyFinal => None,
        NodeKind::AnyTrans => {
            let n = any_count(d, a);
            if index_size(v, n) != 0 {
                let x = d[a - spill_len(d, a) - 1 - 256 + b] as int;
                if x < n {
                    Some(x)
                } else {
                    None
                }
            } else {
                scan_inputs(d, a - spill_len(d, a) - 1 - n, n, b, 0)
            }
        },
        _ => if input_at(d, a, v, 0) == b {
            Some(0)
        } else {
            None
        },
    }
}

/// The bytes at `a` form a record that can be decoded without reading
/// outside the buffer, with pack widths of at most eight bytes and targets
/// that lie at or above address zero.
pub open spec fn record_ok(d: Seq<u8>, a: int, v: u64) -> bool {
    a == EMPTY_ADDRESS || {
        &&& 0 < a < d.len()
        &&& d.len() <= u64::MAX
        &&& match kind_at(d, a) {
            NodeKind::OneTransNext => end_at(d, a, v) >= 1,
            NodeKind::OneTrans => {
                &&& a - spill_len(d, a) - 1 >= 0
                &&& tsize_at(d, a) <= 8
                &&& osize_at(d, a) <= 8
                &&& end_at(d, a, v) >= 0
                &&& delta_at(d, a, v, 0) <= end_at(d, a, v)
            },
            _ => {
                &&& a - spill_len(d, a) - 1 >= 0
                &&& tsize_at(d, a) <= 8
                &&& osize_at(d, a) <= 8
                &&& end_at(d, a, v) >= 0
                &&& forall|i: int|
                    0 <= i < any_count(d, a) ==> #[trigger] delta_at(d, a, v, i) <= end_at(d, a, v)
            },
        }
    }
}

/// Bounds on the parts of a well-formed any-transition record.
pub proof fn lemma_any_bounds(d: Seq<u8>, a: int, v: u64)
    requires
        record_ok(d, a, v),
        kind_at(d, a) == NodeKind::AnyTrans,
    ensures
        0 <= any_count(d, a) <= 256,
        0 <= tsize_at(d, a) <= 8,
        0 <= osize_at(d, a) <= 8,
        0 <= any_count(d, a) * tsize_at(d, a) <= 2048,
        0 <= any_count(d, a) * osize_at(d, a) <= 2048,
        spill_len(d, a) == 0 || spill_len(d, a) == 1,
        0 <= end_at(d, a, v),
        end_at(d, a, v) + any_count(d, a) * osize_at(d, a) + trans_block_size(d, a, v) + spill_len(d, a)
            + 1 <= a,
{
    let n = any_count(d, a);
    let t = tsize_at(d, a);
    let o = osize_at(d, a);
    assert(0 <= n * t <= 2048) by (nonlinear_arith)
        requires
            0 <= n <= 256,
            0 <= t <= 8,
    ;
    assert(0 <= n * o <= 2048) by (nonlinear_arith)
        requires
            0 <= n <= 256,
            0 <= o <= 8,
    ;
}

/// The `i`-th of `n` chunks of width `w` ends no later than the last one.
pub proof fn lemma_chunk_le(i: int, n: int, w: int)
    requires
        0 <= i < n,
        0 <= w,
    ensures
        0 <= i * w,
        i * w + w <= n * w,
{
    assert(0 <= i * w) by (nonlinear_arith)
        requires
            0 <= i,
            0 <= w,
    ;
    assert(i * w + w <= n * w) by (nonlinear_arith)
        requires
            i + 1 <= n,
            0 <= w,
    ;
}

} // verus!
