//! Lazy decoding of one node record of a frozen transducer buffer.
use vstd::prelude::*;
use crate::byte_source::{FakeArrSlice, ShRange, SliceBound};
use crate::common_inputs::{common_input, common_input_of};
use crate::layout::{
    lemma_any_bounds, lemma_chunk_le,
    EMPTY_ADDRESS, TRANS_INDEX_THRESHOLD, NodeKind, kind_at, spill_len, sizes_at, tsize_at,
    osize_at, any_count, index_size, le_at, target_of, ntrans_at, is_final_at, trans_block_size,
    end_at, final_output_at, any_input_pos, any_delta_pos, any_output_pos, one_delta_pos, input_at,
    output_at, delta_at, trans_addr_at, scan_inputs, find_input_at, record_ok,
};
use crate::pack::unpack_uint;

verus! {

/// The address of a node: the offset of the last byte of its record.
pub type CompiledAddr = u64;

/// The format version that this library writes.
pub const VERSION: u64 = 3;

/// A value attached to a transition or to a final state; zero is the
/// identity.
#[derive(Clone, Copy, Debug, PartialEq, Eq, Structural)]
pub struct Output(pub u64);

impl Output {
    pub fn new(v: u64) -> (r: Output)
        ensures
            r.0 == v,
    {
        Output(v)
    }

    pub fn zero() -> (r: Output)
        ensures
            r.0 == 0,
    {
        Output(0)
    }

    pub fn value(self) -> (r: u64)
        ensures
            r == self.0,
    {
        self.0
    }

    pub fn is_zero(self) -> (r: bool)
        ensures
            r == (self.0 == 0),
    {
        self.0 == 0
    }
}

/// A transition: input byte, output and target node.
#[derive(Clone, Copy, Debug, PartialEq, Eq, Structural)]
pub struct Transition {
    pub inp: u8,
    pub out: Output,
    pub addr: CompiledAddr,
}

/// One byte holding two widths: the high four bits for address deltas, the
/// low four bits for outputs.
#[derive(Clone, Copy, Debug)]
pub(crate) struct PackSizes(pub(crate) u8);

impl PackSizes {
    pub(crate) fn new() -> (r: Self)
        ensures
            r.0 == 0,
    {
        PackSizes(0)
    }

    pub(crate) fn decode(v: u8) -> (r: Self)
        ensures
            r.0 == v,
    {
        PackSizes(v)
    }

    pub(crate) fn encode(self) -> (r: u8)
        ensures
            r == self.0,
    {
        self.0
    }

    pub(crate) fn set_transition_pack_size(&mut self, size: u8)
        requires
            size <= 8,
        ensures
            final(self).0 / 16 == size,
            final(self).0 % 16 == old(self).0 % 16,
    {
        self.0 = self.0 % 16 + size * 16;
    }

    pub(crate) fn transition_pack_size(self) -> (r: u64)
        ensures
            r == self.0 / 16,
    {
        (self.0 / 16) as u64
    }

    pub(crate) fn set_output_pack_size(&mut self, size: u8)
        requires
            size <= 8,
        ensures
            final(self).0 % 16 == size,
            final(self).0 / 16 == old(self).0 / 16,
    {
        self.0 = (self.0 / 16) * 16 + size;
    }

    pub(crate) fn output_pack_size(self) -> (r: u64)
        ensures
            r == self.0 % 16,
    {
        (self.0 % 16) as u64
    }
}

/// State byte `11` + slot: one transition to the record just below.
#[derive(Clone, Copy, Debug)]
pub(crate) struct StateOneTransNext(pub(crate) u8);

/// State byte `10` + slot: one transition.
#[derive(Clone, Copy, Debug)]
pub(crate) struct StateOneTrans(pub(crate) u8);

/// State byte `0` + final flag + count: any number of transitions.
#[derive(Clone, Copy, Debug)]
pub(crate) struct StateAnyTrans(pub(crate) u8);

#[derive(Clone, Copy, Debug)]
pub(crate) enum State {
    OneTransNext(StateOneTransNext),
    OneTrans(StateOneTrans),
    AnyTrans(StateAnyTrans),
    EmptyFinal,
}

impl State {
    /// Classifies the record at `addr` by its state byte.
    fn new(data: &FakeArrSlice, addr: CompiledAddr) -> (r: State)
        requires
            data.wf(),
            addr == EMPTY_ADDRESS || addr < data@.len(),
        ensures
            r.matches(data@, addr as int),
    {
        if addr == EMPTY_ADDRESS {
            return State::EmptyFinal;
        }
        let v = data.get_byte(addr);
        if v / 64 == 3 {
            State::OneTransNext(StateOneTransNext(v))
        } else if v / 64 == 2 {
            State::OneTrans(StateOneTrans(v))
        } else {
            State::AnyTrans(StateAnyTrans(v))
        }
    }

    pub(crate) open spec fn matches(self, d: Seq<u8>, a: int) -> bool {
        match self {
            State::EmptyFinal => kind_at(d, a) == NodeKind::EmptyFinal,
            State::OneTransNext(s) => kind_at(d, a) == NodeKind::OneTransNext && s.0 == d[a],
            State::OneTrans(s) => kind_at(d, a) == NodeKind::OneTrans && s.0 == d[a],
            State::AnyTrans(s) => kind_at(d, a) == NodeKind::AnyTrans && s.0 == d[a],
        }
    }
}

impl StateOneTransNext {
    pub(crate) fn common_input(self) -> (r: Option<u8>)
        ensures
            r == common_input_of((self.0 % 64) as int),
    {
        common_input(self.0 % 64)
    }

    pub(crate) fn input_len(self) -> (r: u64)
        ensures
            r == (if self.0 % 64 == 0 { 1int } else { 0int }),
    {
        if self.0 % 64 == 0 {
            1
        } else {
            0
        }
    }
}

impl StateOneTrans {
    pub(crate) fn common_input(self) -> (r: Option<u8>)
        ensures
            r == common_input_of((self.0 % 64) as int),
    {
        common_input(self.0 % 64)
    }

    pub(crate) fn input_len(self) -> (r: u64)
        ensures
            r == (if self.0 % 64 == 0 { 1int } else { 0int }),
    {
        if self.0 % 64 == 0 {
            1
        } else {
            0
        }
    }
}

impl StateAnyTrans {
    pub(crate) fn is_final_state(self) -> (r: bool)
        ensures
            r == ((self.0 / 64) % 2 == 1),
    {
        (self.0 / 64) % 2 == 1
    }

    pub(crate) fn state_ntrans(self) -> (r: Option<u8>)
        ensures
            self.0 % 64 == 0 ==> r is None,
            self.0 % 64 != 0 ==> r == Some((self.0 % 64) as u8),
    {
        let n = self.0 % 64;
        if n == 0 {
            None
        } else {
            Some(n)
        }
    }

    pub(crate) fn ntrans_len(self) -> (r: u64)
        ensures
            r == (if self.0 % 64 == 0 { 1int } else { 0int }),
    {
        if self.state_ntrans().is_none() {
            1
        } else {
            0
        }
    }

    pub(crate) fn trans_index_size(self, version: u64, ntrans: u64) -> (r: u64)
        ensures
            r == index_size(version, ntrans as int),
    {
        if version >= 2 && ntrans > TRANS_INDEX_THRESHOLD {
            256
        } else {
            0
        }
    }
}

/// A read-only view of the node record at one address of a buffer.
#[derive(Clone, Copy, Debug)]
pub struct Node<'f> {
    data: FakeArrSlice<'f>,
    version: u64,
    state: State,
    start: CompiledAddr,
    end: u64,
    is_final: bool,
    ntrans: u64,
    sizes: PackSizes,
    final_output: Output,
}

/// Decodes the header of the node record at `addr` of `data`, written in
/// format `version`.
pub fn node_new<'a>(version: u64, addr: CompiledAddr, data: &FakeArrSlice<'a>) -> (r: Node<'a>)
    requires
        data.wf(),
        record_ok(data@, addr as int, version),
    ensures
        r.wf(),
        r.source() == data@,
        r.spec_addr() == addr,
        r.spec_version() == version,
{
    let d = Ghost(data@);
    let a = Ghost(addr as int);
    let state = State::new(data, addr);
    match state {
        State::EmptyFinal => Node {
            data: *data,
            version,
            state,
            start: EMPTY_ADDRESS,
            end: EMPTY_ADDRESS,
            is_final: false,
            ntrans: 0,
            sizes: PackSizes::new(),
            final_output: Output::zero(),
        },
        State::OneTransNext(s) => {
            let end = addr - s.input_len();
            Node {
                data: *data,
                version,
                state,
                start: addr,
                end,
                is_final: false,
                ntrans: 1,
                sizes: PackSizes::new(),
                final_output: Output::zero(),
            }
        },
        State::OneTrans(s) => {
            let sizes = PackSizes::decode(data.get_byte(addr - s.input_len() - 1));
            let end = addr - s.input_len() - 1 - sizes.transition_pack_size()
                - sizes.output_pack_size();
            Node {
                data: *data,
                version,
                state,
                start: addr,
                end,
                is_final: false,
                ntrans: 1,
                sizes,
                final_output: Output::zero(),
            }
        },
        State::AnyTrans(s) => {
            proof {
                lemma_any_bounds(d@, a@, version);
            }
            let ntl = s.ntrans_len();
            let sizes = PackSizes::decode(data.get_byte(addr - ntl - 1));
            let ntrans: u64 = match s.state_ntrans() {
                Some(n) => n as u64,
                None => {
                    let n = data.get_byte(addr - 1) as u64;
                    if n == 1 {
                        256
                    } else {
                        n
                    }
                },
            };
            let tsize = sizes.transition_pack_size();
            let osize = sizes.output_pack_size();
            let is_final = s.is_final_state();
            let block = ntrans + ntrans * tsize + s.trans_index_size(version, ntrans);
            let final_osize = if is_final {
                osize
            } else {
                0
            };
            let end = addr - ntl - 1 - block - ntrans * osize - final_osize;
            let final_output = if osize == 0 || !is_final {
                Output::zero()
            } else {
                Output::new(unpack_uint(data, end, osize))
            };
            Node {
                data: *data,
                version,
                state,
                start: addr,
                end,
                is_final,
                ntrans,
                sizes,
                final_output,
            }
        },
    }
}

impl<'f> Node<'f> {
    /// The buffer the record is read from.
    pub closed spec fn source(&self) -> Seq<u8> {
        self.data@
    }

    /// The node's address.
    pub closed spec fn spec_addr(&self) -> int {
        self.start as int
    }

    /// The format version the node is read in.
    pub closed spec fn spec_version(&self) -> u64 {
        self.version
    }

    /// The header fields hold what the record at the address says.
    pub closed spec fn wf(&self) -> bool {
        let d = self.data@;
        let a = self.start as int;
        let v = self.version;
        &&& self.data.wf()
        &&& record_ok(d, a, v)
        &&& self.state.matches(d, a)
        &&& self.ntrans == ntrans_at(d, a)
        &&& self.is_final == is_final_at(d, a)
        &&& self.final_output.0 == final_output_at(d, a, v)
        &&& self.end == end_at(d, a, v)
        &&& (kind_at(d, a) == NodeKind::OneTrans || kind_at(d, a) == NodeKind::AnyTrans) ==> self.sizes.0
            == sizes_at(d, a)
    }

    /// The number of transitions.
    pub open spec fn spec_len(&self) -> int {
        ntrans_at(self.source(), self.spec_addr())
    }

    /// The input byte of transition `i`.
    fn input(&self, i: u64) -> (r: u8)
        requires
            self.wf(),
            i < self.spec_len(),
        ensures
            r == input_at(self.source(), self.spec_addr(), self.spec_version(), i as int),
    {
        let ghost d = self.data@;
        let ghost a = self.start as int;
        match self.state {
            State::OneTransNext(s) => match s.common_input() {
                Some(b) => b,
                None => self.data.get_byte(self.start - 1),
            },
            State::OneTrans(s) => match s.common_input() {
                Some(b) => b,
                None => self.data.get_byte(self.start - 1),
            },
            State::AnyTrans(s) => {
                proof {
                    lemma_any_bounds(d, a, self.version);
                }
                let at = self.start - s.ntrans_len() - 1 - s.trans_index_size(
                    self.version,
                    self.ntrans,
                ) - i - 1;
                self.data.get_byte(at)
            },
            State::EmptyFinal => 0,
        }
    }

    /// The output of transition `i`.
    fn output(&self, i: u64) -> (r: u64)
        requires
            self.wf(),
            i < self.spec_len(),
        ensures
            r == output_at(self.source(), self.spec_addr(), self.spec_version(), i as int),
    {
        let ghost d = self.data@;
        let ghost a = self.start as int;
        match self.state {
            State::OneTrans(s) => {
                let osize = self.sizes.output_pack_size();
                if osize == 0 {
                    return 0;
                }
                let tsize = self.sizes.transition_pack_size();
                let at = self.start - s.input_len() - 1 - tsize - osize;
                unpack_uint(&self.data, at, osize)
            },
            State::AnyTrans(s) => {
                proof {
                    lemma_any_bounds(d, a, self.version);
                }
                let osize = self.sizes.output_pack_size();
                if osize == 0 {
                    return 0;
                }
                proof {
                    lemma_chunk_le(i as int, self.ntrans as int, osize as int);
                }
                let tsize = self.sizes.transition_pack_size();
                let block = self.ntrans + self.ntrans * tsize + s.trans_index_size(
                    self.version,
                    self.ntrans,
                );
                let at = self.start - s.ntrans_len() - 1 - block - i * osize - osize;
                unpack_uint(&self.data, at, osize)
            },
            _ => 0,
        }
    }

    /// The target address of transition `i`.
    pub fn transition_addr(&self, i: u64) -> (r: CompiledAddr)
        requires
            self.wf(),
            i < self.spec_len(),
        ensures
            r == trans_addr_at(self.source(), self.spec_addr(), self.spec_version(), i as int),
    {
        let ghost d = self.data@;
        let ghost a = self.start as int;
        match self.state {
            State::OneTransNext(_) => self.end - 1,
            State::OneTrans(s) => {
                let tsize = self.sizes.transition_pack_size();
                let at = self.start - s.input_len() - 1 - tsize;
                let delta = unpack_uint(&self.data, at, tsize);
                if delta == EMPTY_ADDRESS {
                    EMPTY_ADDRESS
                } else {
                    self.end - delta
                }
            },
            State::AnyTrans(s) => {
                proof {
                    lemma_any_bounds(d, a, self.version);
                    lemma_chunk_le(i as int, self.ntrans as int, tsize_at(d, a));
                    assert(delta_at(d, a, self.version, i as int) <= end_at(d, a, self.version));
                }
                let tsize = self.sizes.transition_pack_size();
                let at = self.start - s.ntrans_len() - 1 - s.trans_index_size(
                    self.version,
                    self.ntrans,
                ) - self.ntrans - i * tsize - tsize;
                let delta = unpack_uint(&self.data, at, tsize);
                if delta == EMPTY_ADDRESS {
                    EMPTY_ADDRESS
                } else {
                    self.end - delta
                }
            },
            State::EmptyFinal => 0,
        }
    }

    /// Transition `i`: its input byte, output and target.
    pub fn transition(&self, i: u64) -> (r: Transition)
        requires
            self.wf(),
            i < self.spec_len(),
        ensures
            r.inp == input_at(self.source(), self.spec_addr(), self.spec_version(), i as int),
            r.out.0 == output_at(self.source(), self.spec_addr(), self.spec_version(), i as int),
            r.addr == trans_addr_at(self.source(), self.spec_addr(), self.spec_version(), i as int),
    {
        Transition { inp: self.input(i), out: Output(self.output(i)), addr: self.transition_addr(i) }
    }

    /// All transitions, in index order.
    pub fn transitions(&self) -> (r: Vec<Transition>)
        requires
            self.wf(),
        ensures
            r@.len() == self.spec_len(),
            forall|i: int|
                0 <= i < r@.len() ==> {
                    &&& (#[trigger] r@[i]).inp == input_at(
                        self.source(),
                        self.spec_addr(),
                        self.spec_version(),
                        i,
                    )
                    &&& r@[i].out.0 == output_at(self.source(), self.spec_addr(), self.spec_version(), i)
                    &&& r@[i].addr == trans_addr_at(
                        self.source(),
                        self.spec_addr(),
                        self.spec_version(),
                        i,
                    )
                },
    {
        let mut r: Vec<Transition> = Vec::new();
        let mut i: u64 = 0;
        while i < self.ntrans
            invariant
                self.wf(),
                i <= self.ntrans,
                self.ntrans == self.spec_len(),
                r@.len() == i,
                forall|k: int|
                    0 <= k < i ==> {
                        &&& (#[trigger] r@[k]).inp == input_at(
                            self.source(),
                            self.spec_addr(),
                            self.spec_version(),
                            k,
                        )
                        &&& r@[k].out.0 == output_at(
                            self.source(),
                            self.spec_addr(),
                            self.spec_version(),
                            k,
                        )
                        &&& r@[k].addr == trans_addr_at(
                            self.source(),
                            self.spec_addr(),
                            self.spec_version(),
                            k,
                        )
                    },
            decreases self.ntrans - i,
        {
            r.push(self.transition(i));
            i = i + 1;
        }
        r
    }

    /// The index of the transition for input `b`, if there is one.
    pub fn find_input(&self, b: u8) -> (r: Option<u64>)
        requires
            self.wf(),
        ensures
            r == match find_input_at(self.source(), self.spec_addr(), self.spec_version(), b) {
                Some(i) => Some(i as u64),
                None => None::<u64>,
            },
    {
        let ghost d = self.data@;
        let ghost a = self.start as int;
        match self.state {
            State::OneTransNext(_) | State::OneTrans(_) => {
                if self.input(0) == b {
                    Some(0)
                } else {
                    None
                }
            },
            State::AnyTrans(s) => {
                proof {
                    lemma_any_bounds(d, a, self.version);
                }
                let isz = s.trans_index_size(self.version, self.ntrans);
                if isz != 0 {
                    let start = self.start - s.ntrans_len() - 1 - 256;
                    let i = self.data.get_byte(start + b as u64) as u64;
                    if i >= self.ntrans {
                        None
                    } else {
                        Some(i)
                    }
                } else {
                    let base = self.start - s.ntrans_len() - 1 - self.ntrans;
                    let n = self.ntrans;
                    let mut j: u64 = 0;
                    while j < n
                        invariant
                            self.wf(),
                            d == self.data@,
                            a == self.start as int,
                            base + n < d.len(),
                            d.len() <= u64::MAX,
                            n <= 256,
                            n == any_count(d, a),
                            base == a - spill_len(d, a) - 1 - n,
                            kind_at(d, a) == NodeKind::AnyTrans,
                            index_size(self.version, n as int) == 0,
                            j <= n,
                            scan_inputs(d, base as int, n as int, b, 0) == scan_inputs(
                                d,
                                base as int,
                                n as int,
                                b,
                                j as int,
                            ),
                        decreases n - j,
                    {
                        if self.data.get_byte(base + j) == b {
                            proof {
                                assert(scan_inputs(d, base as int, n as int, b, j as int) == Some(
                                    n - j - 1,
                                ));
                            }
                            return Some(n - j - 1);
                        }
                        j = j + 1;
                    }
                    None
                }
            },
            State::EmptyFinal => None,
        }
    }

    /// The final output; zero unless the node is final with an output.
    pub fn final_output(&self) -> (r: Output)
        requires
            self.wf(),
        ensures
            r.0 == final_output_at(self.source(), self.spec_addr(), self.spec_version()),
    {
        self.final_output
    }

    /// Whether the node is a final (accepting) state.
    pub fn is_final(&self) -> (r: bool)
        requires
            self.wf(),
        ensures
            r == is_final_at(self.source(), self.spec_addr()),
    {
        self.is_final
    }

    /// The number of transitions, at most 256.
    pub fn len(&self) -> (r: u64)
        requires
            self.wf(),
        ensures
            r == self.spec_len(),
            r <= 256,
    {
        proof {
            if kind_at(self.data@, self.start as int) == NodeKind::AnyTrans {
                lemma_any_bounds(self.data@, self.start as int, self.version);
            }
        }
        self.ntrans
    }

    /// Whether the node has no transitions.
    pub fn is_empty(&self) -> (r: bool)
        requires
            self.wf(),
        ensures
            r == (self.spec_len() == 0),
    {
        self.ntrans == 0
    }

    /// The node's address.
    pub fn addr(&self) -> (r: CompiledAddr)
        ensures
            r == self.spec_addr(),
    {
        self.start
    }

    /// The bytes of the node's record.
    pub fn as_slice(&self) -> (r: Vec<u8>)
        requires
            self.wf(),
        ensures
            kind_at(self.source(), self.spec_addr()) == NodeKind::EmptyFinal ==> r@.len() == 0,
            kind_at(self.source(), self.spec_addr()) != NodeKind::EmptyFinal ==> r@
                == self.source().subrange(
                end_at(self.source(), self.spec_addr(), self.spec_version()),
                self.spec_addr() + 1,
            ),
    {
        if let State::EmptyFinal = self.state {
            return Vec::new();
        }
        proof {
            if kind_at(self.data@, self.start as int) == NodeKind::AnyTrans {
                lemma_any_bounds(self.data@, self.start as int, self.version);
            }
        }
        let part = self.data.slice(ShRange(SliceBound::Included(self.end), SliceBound::Included(self.start)));
        part.to_vec()
    }

    /// A short name of the node's encoding.
    pub fn state(&self) -> (r: &'static str)
        requires
            self.wf(),
        ensures
            kind_at(self.source(), self.spec_addr()) == NodeKind::OneTransNext ==> r@ == "OTN"@,
            kind_at(self.source(), self.spec_addr()) == NodeKind::OneTrans ==> r@ == "OT"@,
            kind_at(self.source(), self.spec_addr()) == NodeKind::AnyTrans ==> r@ == "AT"@,
            kind_at(self.source(), self.spec_addr()) == NodeKind::EmptyFinal ==> r@ == "EF"@,
    {
        match self.state {
            State::OneTransNext(_) => "OTN",
            State::OneTrans(_) => "OT",
            State::AnyTrans(_) => "AT",
            State::EmptyFinal => "EF",
        }
    }
}

} // verus!
