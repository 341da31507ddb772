//! The fixed table of frequent input bytes that a one-transition node can
//! pack into the spare bits of its state byte.
use vstd::prelude::*;

verus! {

/// Frequent input bytes, most frequent first. Slot `k` of a state byte
/// (`1 <= k <= 63`) stands for entry `k - 1`; slot `0` means "not common".
pub open spec fn common_table() -> Seq<u8> {
    seq![
        116u8, 101, 47, 111, 97, 115, 114, 105, 112, 99, 110, 119, 46, 104, 108, 109,
        45, 100, 117, 48, 49, 50, 103, 61, 58, 98, 102, 51, 121, 53, 38, 95,
        52, 118, 57, 54, 55, 56, 107, 37, 63, 120, 67, 68, 65, 83, 70, 73,
        66, 69, 106, 80, 84, 122, 82, 78, 77, 43, 76, 79, 113, 72, 71, 87,
    ]
}

/// The byte that slot `idx` stands for, if any.
pub open spec fn common_input_of(idx: int) -> Option<u8> {
    if 1 <= idx <= 63 {
        Some(common_table()[idx - 1])
    } else {
        None
    }
}

/// `input` occupies slot `idx`: its first entry in the table, if that entry
/// has a slot.
pub open spec fn is_common_idx(input: u8, idx: int) -> bool {
    &&& 0 <= idx <= 63
    &&& idx != 0 ==> common_table()[idx - 1] == input
    &&& forall|k: int| 0 <= k < idx - 1 ==> common_table()[k] != input
    &&& idx == 0 ==> forall|k: int| 0 <= k < 63 ==> common_table()[k] != input
}

fn common_table_vec() -> (r: Vec<u8>)
    ensures
        r@ == common_table(),
{
    let r = vec![
        116u8, 101, 47, 111, 97, 115, 114, 105, 112, 99, 110, 119, 46, 104, 108, 109,
        45, 100, 117, 48, 49, 50, 103, 61, 58, 98, 102, 51, 121, 53, 38, 95,
        52, 118, 57, 54, 55, 56, 107, 37, 63, 120, 67, 68, 65, 83, 70, 73,
        66, 69, 106, 80, 84, 122, 82, 78, 77, 43, 76, 79, 113, 72, 71, 87,
    ];
    proof {
        assert(r@ =~= common_table());
    }
    r
}

/// The slot of `input`, or `0` when it has none.
pub fn common_idx(input: u8) -> (r: u8)
    ensures
        is_common_idx(input, r as int),
{
    let table = common_table_vec();
    let mut k: usize = 0;
    while k < 63
        invariant
            k <= 63,
            table@ == common_table(),
            forall|j: int| 0 <= j < k ==> common_table()[j] != input,
        decreases 63 - k,
    {
        if table[k] == input {
            return (k + 1) as u8;
        }
        k = k + 1;
    }
    0
}

/// The byte that slot `idx` stands for, if any.
pub fn common_input(idx: u8) -> (r: Option<u8>)
    ensures
        r == common_input_of(idx as int),
{
    if idx == 0 || idx > 63 {
        None
    } else {
        let table = common_table_vec();
        Some(table[(idx - 1) as usize])
    }
}

} // verus!
