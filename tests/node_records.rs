use airmail_fst::byte_source::slice_to_fake_arr;
use airmail_fst::encode::BuilderNode;
use airmail_fst::layout::EMPTY_ADDRESS;
use airmail_fst::node::{node_new, CompiledAddr, Output, Transition, VERSION};
use airmail_fst::pack::{pack_size, pack_uint, pack_uint_in, unpack_uint};

const NEVER_LAST: CompiledAddr = u64::MAX;

fn trans(addr: CompiledAddr, inp: u8) -> Transition {
    Transition { inp, out: Output::zero(), addr }
}

fn compile(node: &BuilderNode) -> (CompiledAddr, Vec<u8>) {
    let mut buf = vec![0; 24];
    node.compile_to(&mut buf, NEVER_LAST, 24);
    (buf.len() as CompiledAddr - 1, buf)
}

fn roundtrip(bnode: &BuilderNode) {
    let (addr, bytes) = compile(bnode);
    let data = slice_to_fake_arr(&bytes);
    let node = node_new(VERSION, addr, &data);
    assert_eq!(node.is_final(), bnode.is_final);
    assert_eq!(node.len(), bnode.trans.len() as u64);
    assert_eq!(node.final_output(), bnode.final_output);
    let got = node.transitions();
    assert_eq!(got.len(), bnode.trans.len());
    for (i, (ct, ut)) in got.iter().zip(bnode.trans.iter()).enumerate() {
        assert_eq!(ct.inp, ut.inp);
        assert_eq!(ct.out, ut.out);
        assert_eq!(ct.addr, ut.addr);
        assert_eq!(node.transition(i as u64), *ut);
        assert_eq!(node.transition_addr(i as u64), ut.addr);
    }
}

#[test]
fn bin_no_trans() {
    let bnode = BuilderNode { is_final: false, final_output: Output::zero(), trans: vec![] };
    let (_, buf) = compile(&bnode);
    // The empty node takes no bytes: it is the empty address.
    assert_eq!(buf.len(), 24);
    let data = slice_to_fake_arr(&buf);
    let node = node_new(VERSION, EMPTY_ADDRESS, &data);
    assert_eq!(node.as_slice().len(), 0);
    assert_eq!(node.len(), 0);
    assert!(node.is_empty());
    assert!(!node.is_final());
    assert_eq!(node.final_output(), Output::zero());
    assert_eq!(node.state(), "EF");
    assert_eq!(node.find_input(b'a'), None);
}

#[test]
fn bin_one_trans_common() {
    let bnode = BuilderNode { is_final: false, final_output: Output::zero(), trans: vec![trans(20, b'a')] };
    let (addr, buf) = compile(&bnode);
    let data = slice_to_fake_arr(&buf);
    let node = node_new(VERSION, addr, &data);
    assert_eq!(node.as_slice().len(), 3);
    roundtrip(&bnode);
}

#[test]
fn bin_one_trans_not_common() {
    let bnode = BuilderNode { is_final: false, final_output: Output::zero(), trans: vec![trans(2, b'\xff')] };
    let (addr, buf) = compile(&bnode);
    let data = slice_to_fake_arr(&buf);
    let node = node_new(VERSION, addr, &data);
    assert_eq!(node.as_slice().len(), 4);
    roundtrip(&bnode);
}

#[test]
fn bin_many_trans() {
    let bnode = BuilderNode {
        is_final: false,
        final_output: Output::zero(),
        trans: vec![
            trans(2, b'a'),
            trans(3, b'b'),
            trans(4, b'c'),
            trans(5, b'd'),
            trans(6, b'e'),
            trans(7, b'f'),
        ],
    };
    let (addr, buf) = compile(&bnode);
    let data = slice_to_fake_arr(&buf);
    let node = node_new(VERSION, addr, &data);
    assert_eq!(node.as_slice().len(), 14);
    roundtrip(&bnode);
}

#[test]
fn node_max_trans() {
    let bnode = BuilderNode {
        is_final: false,
        final_output: Output::zero(),
        trans: (0..256).map(|i| trans(0, i as u8)).collect(),
    };
    let (addr, buf) = compile(&bnode);
    let data = slice_to_fake_arr(&buf);
    let node = node_new(VERSION, addr, &data);
    assert_eq!(node.transitions().len(), 256);
    assert_eq!(node.len(), node.transitions().len() as u64);
    assert_eq!(node.len(), 256);
    roundtrip(&bnode);
}

#[test]
fn one_trans_next_is_one_byte() {
    // Common input, zero output, target right below the record.
    let bnode = BuilderNode { is_final: false, final_output: Output::zero(), trans: vec![trans(23, b'a')] };
    let mut buf = vec![0; 24];
    bnode.compile_to(&mut buf, 23, 24);
    assert_eq!(buf.len(), 25);
    let data = slice_to_fake_arr(&buf);
    let node = node_new(VERSION, 24, &data);
    assert_eq!(node.state(), "OTN");
    assert_eq!(node.as_slice(), vec![buf[24]]);
    assert_eq!(node.len(), 1);
    assert_eq!(node.transition(0), trans(23, b'a'));
    assert_eq!(node.find_input(b'a'), Some(0));
    assert_eq!(node.find_input(b'b'), None);
}

#[test]
fn one_trans_next_uncommon_input_takes_two_bytes() {
    let bnode = BuilderNode { is_final: false, final_output: Output::zero(), trans: vec![trans(23, 0xff)] };
    let mut buf = vec![0; 24];
    bnode.compile_to(&mut buf, 23, 24);
    assert_eq!(buf.len(), 26);
    let data = slice_to_fake_arr(&buf);
    let node = node_new(VERSION, 25, &data);
    assert_eq!(node.state(), "OTN");
    assert_eq!(node.as_slice().len(), 2);
    assert_eq!(node.transition(0), trans(23, 0xff));
}

#[test]
fn uncommon_input_adds_one_byte() {
    let common = BuilderNode { is_final: false, final_output: Output::zero(), trans: vec![trans(10, b'e')] };
    let uncommon = BuilderNode { is_final: false, final_output: Output::zero(), trans: vec![trans(10, 0x01)] };
    let (_, a) = compile(&common);
    let (_, b) = compile(&uncommon);
    assert_eq!(b.len(), a.len() + 1);
}

#[test]
fn one_trans_with_output_round_trips() {
    let bnode = BuilderNode {
        is_final: false,
        final_output: Output::zero(),
        trans: vec![Transition { inp: b'x', out: Output::new(70_000), addr: 5 }],
    };
    let (addr, buf) = compile(&bnode);
    let data = slice_to_fake_arr(&buf);
    let node = node_new(VERSION, addr, &data);
    assert_eq!(node.state(), "OT");
    // output (3 bytes) + delta (1) + pack sizes + state; 'x' is common.
    assert_eq!(node.as_slice().len(), 6);
    roundtrip(&bnode);
}

#[test]
fn final_node_with_outputs_round_trips() {
    let bnode = BuilderNode {
        is_final: true,
        final_output: Output::new(300),
        trans: vec![
            Transition { inp: b'a', out: Output::new(1), addr: 3 },
            Transition { inp: b'q', out: Output::zero(), addr: EMPTY_ADDRESS },
            Transition { inp: 0xfe, out: Output::new(65_536), addr: 20 },
        ],
    };
    let (addr, buf) = compile(&bnode);
    let data = slice_to_fake_arr(&buf);
    let node = node_new(VERSION, addr, &data);
    assert_eq!(node.state(), "AT");
    assert!(node.is_final());
    assert_eq!(node.final_output(), Output::new(300));
    roundtrip(&bnode);
}

#[test]
fn final_node_without_transitions_is_any_trans() {
    let bnode = BuilderNode { is_final: true, final_output: Output::zero(), trans: vec![] };
    let (addr, buf) = compile(&bnode);
    assert_eq!(buf.len(), 24 + 3);
    let data = slice_to_fake_arr(&buf);
    let node = node_new(VERSION, addr, &data);
    assert!(node.is_final());
    assert_eq!(node.len(), 0);
    roundtrip(&bnode);
}

#[test]
fn wide_node_uses_index() {
    let inputs: Vec<u8> = (0..40u8).map(|i| i * 3).collect();
    let bnode = BuilderNode {
        is_final: false,
        final_output: Output::zero(),
        trans: inputs.iter().map(|&b| trans(7, b)).collect(),
    };
    let (addr, buf) = compile(&bnode);
    let data = slice_to_fake_arr(&buf);
    let node = node_new(VERSION, addr, &data);
    // state (count fits in it) + pack sizes + index + inputs + deltas
    assert_eq!(node.as_slice().len(), 1 + 1 + 256 + 40 + 40);
    for (i, &b) in inputs.iter().enumerate() {
        assert_eq!(node.find_input(b), Some(i as u64));
        assert_eq!(node.transition(i as u64).inp, b);
    }
    assert_eq!(node.find_input(1), None);
    assert_eq!(node.find_input(200), None);
    roundtrip(&bnode);
}

#[test]
fn narrow_node_scans_inputs() {
    let bnode = BuilderNode {
        is_final: false,
        final_output: Output::zero(),
        trans: vec![trans(2, b'a'), trans(3, b'k'), trans(4, b'z')],
    };
    let (addr, buf) = compile(&bnode);
    let data = slice_to_fake_arr(&buf);
    let node = node_new(VERSION, addr, &data);
    assert_eq!(node.find_input(b'a'), Some(0));
    assert_eq!(node.find_input(b'k'), Some(1));
    assert_eq!(node.find_input(b'z'), Some(2));
    assert_eq!(node.find_input(b'b'), None);
}

#[test]
fn max_trans_lookup() {
    let bnode = BuilderNode {
        is_final: false,
        final_output: Output::zero(),
        trans: (0..256).map(|i| trans(0, i as u8)).collect(),
    };
    let (addr, buf) = compile(&bnode);
    let data = slice_to_fake_arr(&buf);
    let node = node_new(VERSION, addr, &data);
    for b in 0..=255u8 {
        assert_eq!(node.find_input(b), Some(b as u64));
    }
}

#[test]
fn node_addr_is_given_address() {
    let bnode = BuilderNode { is_final: false, final_output: Output::zero(), trans: vec![trans(20, b'a')] };
    let (addr, buf) = compile(&bnode);
    let data = slice_to_fake_arr(&buf);
    let node = node_new(VERSION, addr, &data);
    assert_eq!(node.addr(), addr);
}

#[test]
fn pack_widths() {
    assert_eq!(pack_size(0), 1);
    assert_eq!(pack_size(255), 1);
    assert_eq!(pack_size(256), 2);
    assert_eq!(pack_size(65_535), 2);
    assert_eq!(pack_size(65_536), 3);
    assert_eq!(pack_size(u64::MAX), 8);
}

#[test]
fn pack_and_unpack() {
    let mut buf = vec![9u8];
    pack_uint_in(&mut buf, 0x0102_0304, 4);
    assert_eq!(buf, vec![9, 4, 3, 2, 1]);
    let n = pack_uint(&mut buf, 0x1234);
    assert_eq!(n, 2);
    assert_eq!(buf, vec![9, 4, 3, 2, 1, 0x34, 0x12]);
    let data = slice_to_fake_arr(&buf);
    assert_eq!(unpack_uint(&data, 1, 4), 0x0102_0304);
    assert_eq!(unpack_uint(&data, 5, 2), 0x1234);
    assert_eq!(unpack_uint(&data, 5, 0), 0);
    let mut wide = Vec::new();
    pack_uint_in(&mut wide, u64::MAX, 8);
    let data = slice_to_fake_arr(&wide);
    assert_eq!(unpack_uint(&data, 0, 8), u64::MAX);
}
