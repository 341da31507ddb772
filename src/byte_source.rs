//! Randomly addressable, zero-copy views over byte buffers.
//!
//! A view is a window `[offset, offset + len)` into a root buffer. Slicing a
//! view yields another window into the same root, so views never nest.
use vstd::prelude::*;

verus! {

/// One end of a byte range.
#[derive(Clone, Copy, Debug, PartialEq, Eq, Structural)]
pub enum SliceBound {
    Unbounded,
    Included(u64),
    Excluded(u64),
}

/// A byte range given by its start and end bound.
#[derive(Clone, Copy, Debug, PartialEq, Eq, Structural)]
pub struct ShRange(pub SliceBound, pub SliceBound);

/// Why a read did not complete.
#[derive(Clone, Copy, Debug, PartialEq, Eq, Structural)]
pub enum ReadError {
    /// The requested bytes reach past the end of the source.
    ShortRead,
}

/// The `(offset, len)` window that `(start, end)` selects out of `total`
/// bytes.
pub open spec fn window_of(start: SliceBound, end: SliceBound, total: nat) -> (int, int) {
    let s: int = match start {
        SliceBound::Included(i) => i as int,
        _ => 0,
    };
    let e: int = match end {
        SliceBound::Unbounded => total as int,
        SliceBound::Included(i) => i + 1,
        SliceBound::Excluded(i) => i as int,
    };
    (s, e - s)
}

/// A range that selects a window of `total` bytes: the start is not
/// exclusive and `start <= end <= total`.
pub open spec fn range_fits(r: ShRange, total: nat) -> bool {
    let w = window_of(r.0, r.1, total);
    &&& !(r.0 is Excluded)
    &&& 0 <= w.1
    &&& w.0 + w.1 <= total
}

/// A randomly addressable source of bytes: an owned buffer, a view into a
/// borrowed one, or a source whose reads go elsewhere and may fail.
pub trait FakeArr {
    /// The bytes of the source.
    spec fn bytes(&self) -> Seq<u8>;

    /// The source can be read.
    spec fn ready(&self) -> bool;

    /// The bytes are in memory: a read within bounds always succeeds.
    spec fn in_memory(&self) -> bool;

    /// The number of bytes.
    fn len(&self) -> (r: u64)
        requires
            self.ready(),
        ensures
            r == self.bytes().len(),
    ;

    /// Fills `buf` with the bytes from `offset` on. Fails when the source
    /// has fewer bytes; a source that reads elsewhere may also fail
    /// otherwise. On failure `buf` is left as it was.
    fn read_into(&self, offset: u64, buf: &mut Vec<u8>) -> (r: Result<(), ReadError>)
        requires
            self.ready(),
        ensures
            r is Ok ==> offset + old(buf)@.len() <= self.bytes().len() && final(buf)@
                == self.bytes().subrange(offset as int, offset + old(buf)@.len()),
            offset + old(buf)@.len() > self.bytes().len() ==> r is Err,
            self.in_memory() && offset + old(buf)@.len() <= self.bytes().len() ==> r is Ok,
            r is Err ==> final(buf)@ == old(buf)@,
    ;
}

/// All bytes of a source, read into an owned buffer.
pub fn materialize<A: FakeArr>(a: &A) -> (r: Result<Vec<u8>, ReadError>)
    requires
        a.ready(),
    ensures
        r is Ok ==> r->Ok_0@ == a.bytes(),
        a.in_memory() ==> r is Ok,
{
    let n = a.len();
    let mut v: Vec<u8> = Vec::new();
    let mut i: u64 = 0;
    while i < n
        invariant
            i <= n,
            v@.len() == i,
        decreases n - i,
    {
        v.push(0);
        i = i + 1;
    }
    match a.read_into(0, &mut v) {
        Ok(()) => {
            proof {
                assert(v@ =~= a.bytes());
            }
            Ok(v)
        },
        Err(e) => Err(e),
    }
}

impl FakeArr for Vec<u8> {
    open spec fn bytes(&self) -> Seq<u8> {
        self@
    }

    open spec fn ready(&self) -> bool {
        self@.len() <= u64::MAX
    }

    open spec fn in_memory(&self) -> bool {
        true
    }

    fn len(&self) -> (r: u64) {
        self.len() as u64
    }

    fn read_into(&self, offset: u64, buf: &mut Vec<u8>) -> (r: Result<(), ReadError>) {
        let n = buf.len();
        let total: usize = self.len();
        if offset > total as u64 || n as u64 > total as u64 - offset {
            return Err(ReadError::ShortRead);
        }
        let base = offset as usize;
        let mut i: usize = 0;
        while i < n
            invariant
                i <= n,
                n == buf@.len(),
                n == old(buf)@.len(),
                base + n <= self@.len(),
                self@.len() <= usize::MAX,
                base == offset,
                forall|k: int| 0 <= k < i ==> buf@[k] == self@[base + k],
            decreases n - i,
        {
            buf.set(i, self[base + i]);
            i = i + 1;
        }
        proof {
            assert(buf@ =~= self@.subrange(offset as int, offset + n));
        }
        Ok(())
    }
}

impl<'a> FakeArr for FakeArrSlice<'a> {
    open spec fn bytes(&self) -> Seq<u8> {
        self@
    }

    open spec fn ready(&self) -> bool {
        self.wf()
    }

    open spec fn in_memory(&self) -> bool {
        true
    }

    fn len(&self) -> (r: u64) {
        FakeArrSlice::len(self)
    }

    fn read_into(&self, offset: u64, buf: &mut Vec<u8>) -> (r: Result<(), ReadError>) {
        FakeArrSlice::read_into(self, offset, buf)
    }
}

/// A window `[offset, offset + len)` of any source: an owned buffer, a
/// source whose reads go elsewhere, or a view. Slicing a window gives a
/// window into the same source.
pub struct SourceView<'a, A: FakeArr> {
    source: &'a A,
    offset: u64,
    len: u64,
}

impl<'a, A: FakeArr> SourceView<'a, A> {
    /// The source the window is into.
    pub closed spec fn spec_source(&self) -> &'a A {
        self.source
    }

    /// Where the window starts in its source.
    pub closed spec fn spec_offset(&self) -> nat {
        self.offset as nat
    }

    /// How many bytes the window spans.
    pub closed spec fn spec_len(&self) -> nat {
        self.len as nat
    }

    /// The window lies inside a readable source.
    pub open spec fn wf(&self) -> bool {
        &&& self.spec_source().ready()
        &&& self.spec_offset() + self.spec_len() <= self.spec_source().bytes().len()
        &&& self.spec_source().bytes().len() <= u64::MAX
    }

    /// The bytes of the window.
    pub open spec fn spec_bytes(&self) -> Seq<u8> {
        self.spec_source().bytes().subrange(
            self.spec_offset() as int,
            (self.spec_offset() + self.spec_len()) as int,
        )
    }

    /// A window over all of `source`.
    pub fn new(source: &'a A) -> (r: Self)
        requires
            source.ready(),
        ensures
            r.wf(),
            r.spec_source() == source,
            r.spec_offset() == 0,
            r.spec_len() == source.bytes().len(),
    {
        let n = source.len();
        SourceView { source, offset: 0, len: n }
    }

    /// The window's offset into its source.
    pub fn get_offset(&self) -> (r: u64)
        ensures
            r == self.spec_offset(),
    {
        self.offset
    }

    /// The window of this window that `bounds` selects, into the same
    /// source.
    pub fn slice(&self, bounds: ShRange) -> (r: SourceView<'a, A>)
        requires
            self.wf(),
            range_fits(bounds, self.spec_len()),
        ensures
            r.wf(),
            r.spec_source() == self.spec_source(),
            r.spec_offset() == self.spec_offset() + window_of(bounds.0, bounds.1, self.spec_len()).0,
            r.spec_len() == window_of(bounds.0, bounds.1, self.spec_len()).1,
            r.spec_bytes() == self.spec_bytes().subrange(
                window_of(bounds.0, bounds.1, self.spec_len()).0,
                window_of(bounds.0, bounds.1, self.spec_len()).0 + window_of(
                    bounds.0,
                    bounds.1,
                    self.spec_len(),
                ).1,
            ),
    {
        let start: u64 = match bounds.0 {
            SliceBound::Included(i) => i,
            _ => 0,
        };
        let end: u64 = match bounds.1 {
            SliceBound::Unbounded => self.len,
            SliceBound::Included(i) => i + 1,
            SliceBound::Excluded(i) => i,
        };
        let r = SourceView { source: self.source, offset: self.offset + start, len: end - start };
        proof {
            assert(r.spec_bytes() =~= self.spec_bytes().subrange(start as int, end as int));
        }
        r
    }
}

impl<'a, A: FakeArr> FakeArr for SourceView<'a, A> {
    open spec fn bytes(&self) -> Seq<u8> {
        self.spec_bytes()
    }

    open spec fn ready(&self) -> bool {
        self.wf()
    }

    open spec fn in_memory(&self) -> bool {
        self.spec_source().in_memory()
    }

    fn len(&self) -> (r: u64) {
        self.len
    }

    fn read_into(&self, offset: u64, buf: &mut Vec<u8>) -> (r: Result<(), ReadError>) {
        let n = buf.len();
        if offset > self.len || (n as u64) > self.len - offset {
            return Err(ReadError::ShortRead);
        }
        let r = self.source.read_into(self.offset + offset, buf);
        proof {
            if r is Ok {
                assert(buf@ =~= self.spec_bytes().subrange(offset as int, offset + n));
            }
        }
        r
    }
}

/// `r` is the window of `a` that `bounds` selects, into the same root.
pub open spec fn is_slice_of(r: FakeArrSlice, a: FakeArrSlice, bounds: ShRange) -> bool {
    let w = window_of(bounds.0, bounds.1, a@.len());
    &&& r.root() == a.root()
    &&& r.spec_offset() == a.spec_offset() + w.0
    &&& r@ == a@.subrange(w.0, w.0 + w.1)
}

/// A window `[offset, offset + len)` of a borrowed root buffer.
#[derive(Clone, Copy, Debug)]
pub struct FakeArrSlice<'a> {
    real: &'a [u8],
    offset: u64,
    len: u64,
}

impl<'a> View for FakeArrSlice<'a> {
    type V = Seq<u8>;

    open spec fn view(&self) -> Seq<u8> {
        self.root().subrange(self.spec_offset() as int, (self.spec_offset() + self.spec_len()) as int)
    }
}

impl<'a> FakeArrSlice<'a> {
    /// The whole root buffer that this view is a window of.
    pub closed spec fn root(&self) -> Seq<u8> {
        self.real@
    }

    /// Where the window starts in the root buffer.
    pub closed spec fn spec_offset(&self) -> nat {
        self.offset as nat
    }

    /// How many bytes the window spans.
    pub closed spec fn spec_len(&self) -> nat {
        self.len as nat
    }

    /// The window lies inside its root buffer.
    pub closed spec fn wf(&self) -> bool {
        &&& self.offset + self.len <= self.real@.len()
        &&& self.real@.len() <= usize::MAX
        &&& self.real@.len() <= u64::MAX
    }

    /// A view spans no more bytes than a `u64` counts.
    pub proof fn lemma_len_fits(&self)
        requires
            self.wf(),
        ensures
            self@.len() <= u64::MAX,
            self.spec_offset() + self@.len() <= self.root().len(),
    {
    }

    /// The window's offset into its root buffer.
    pub fn get_offset(&self) -> (r: u64)
        ensures
            r == self.spec_offset(),
    {
        self.offset
    }

    /// The number of bytes in view.
    pub fn len(&self) -> (r: u64)
        requires
            self.wf(),
        ensures
            r == self@.len(),
    {
        self.len
    }

    pub fn is_empty(&self) -> (r: bool)
        requires
            self.wf(),
        ensures
            r == (self@.len() == 0),
    {
        self.len == 0
    }

    /// The `(offset, len)` window, relative to this view, that `start` and
    /// `end` select.
    pub fn get_ofs_len(&self, start: SliceBound, end: SliceBound) -> (r: (u64, u64))
        requires
            self.wf(),
            !(start is Excluded),
            window_of(start, end, self@.len()).1 >= 0,
            end matches SliceBound::Included(i) ==> i < u64::MAX,
        ensures
            r.0 == window_of(start, end, self@.len()).0,
            r.1 == window_of(start, end, self@.len()).1,
    {
        let s: u64 = match start {
            SliceBound::Included(i) => i,
            _ => 0,
        };
        let e: u64 = match end {
            SliceBound::Unbounded => self.len,
            SliceBound::Included(i) => i + 1,
            SliceBound::Excluded(i) => i,
        };
        (s, e - s)
    }

    /// A view of the bytes that `bounds` selects, into the same root buffer.
    pub fn slice2(&self, bounds: ShRange) -> (r: FakeArrSlice<'a>)
        requires
            self.wf(),
            range_fits(bounds, self@.len()),
        ensures
            r.wf(),
            is_slice_of(r, *self, bounds),
    {
        let (start, len) = self.get_ofs_len(bounds.0, bounds.1);
        let r = FakeArrSlice { real: self.real, offset: self.offset + start, len };
        proof {
            assert(r@ =~= self@.subrange(start as int, start + len));
        }
        r
    }

    /// A view of the bytes that `bounds` selects; the same as `slice2`.
    pub fn slice(&self, bounds: ShRange) -> (r: FakeArrSlice<'a>)
        requires
            self.wf(),
            range_fits(bounds, self@.len()),
        ensures
            r.wf(),
            is_slice_of(r, *self, bounds),
    {
        self.slice2(bounds)
    }

    /// A view of all bytes of this view.
    pub fn full_slice(&self) -> (r: FakeArrSlice<'a>)
        requires
            self.wf(),
        ensures
            r.wf(),
            r.root() == self.root(),
            r.spec_offset() == self.spec_offset(),
            r@ == self@,
    {
        let r = self.slice2(ShRange(SliceBound::Unbounded, SliceBound::Unbounded));
        proof {
            assert(r@ =~= self@);
        }
        r
    }

    /// Copies the bytes starting at `offset` into `buf`, filling it; fails,
    /// leaving `buf` as it was, when fewer bytes than `buf` holds remain.
    pub fn read_into(&self, offset: u64, buf: &mut Vec<u8>) -> (r: Result<(), ReadError>)
        requires
            self.wf(),
        ensures
            r is Ok <==> offset + old(buf)@.len() <= self@.len(),
            r is Ok ==> final(buf)@ == self@.subrange(
                offset as int,
                offset + old(buf)@.len(),
            ),
            r is Err ==> final(buf)@ == old(buf)@ && r == Err::<(), ReadError>(ReadError::ShortRead),
    {
        let n = buf.len();
        if offset > self.len || (n as u64) > self.len - offset {
            return Err(ReadError::ShortRead);
        }
        proof {
            assert(self.real@.len() <= usize::MAX);
        }
        let base: usize = (self.offset + offset) as usize;
        let mut i: usize = 0;
        while i < n
            invariant
                i <= n,
                n == buf@.len(),
                n == old(buf)@.len(),
                base + n <= self.real@.len(),
                base == self.offset + offset,
                self.wf(),
                forall|k: int| 0 <= k < i ==> buf@[k] == self.real@[base + k],
            decreases n - i,
        {
            buf.set(i, self.real[base + i]);
            i = i + 1;
        }
        proof {
            assert(buf@ =~= self@.subrange(offset as int, offset + n));
        }
        Ok(())
    }

    /// The byte at `offset`.
    pub fn get_byte(&self, offset: u64) -> (r: u8)
        requires
            self.wf(),
            offset < self@.len(),
        ensures
            r == self@[offset as int],
    {
        proof {
            assert(self.real@.len() <= usize::MAX);
        }
        self.real[(self.offset + offset) as usize]
    }

    /// All bytes in view, copied into an owned buffer.
    pub fn actually_read_it(&self) -> (r: Vec<u8>)
        requires
            self.wf(),
        ensures
            r@ == self@,
    {
        let mut v: Vec<u8> = Vec::new();
        let mut i: u64 = 0;
        while i < self.len
            invariant
                self.wf(),
                i <= self.len,
                v@ == self@.subrange(0, i as int),
            decreases self.len - i,
        {
            proof {
                assert(self.real@.len() <= usize::MAX);
            }
            v.push(self.real[(self.offset + i) as usize]);
            i = i + 1;
            proof {
                assert(v@ =~= self@.subrange(0, i as int));
            }
        }
        proof {
            assert(v@ =~= self@);
        }
        v
    }

    /// All bytes in view, copied into an owned buffer.
    pub fn to_vec(&self) -> (r: Vec<u8>)
        requires
            self.wf(),
        ensures
            r@ == self@,
    {
        self.actually_read_it()
    }
}

/// A view of all of `slice`.
pub fn slice_to_fake_arr<'a>(slice: &'a [u8]) -> (r: FakeArrSlice<'a>)
    requires
        slice@.len() <= u64::MAX,
    ensures
        r.wf(),
        r.root() == slice@,
        r.spec_offset() == 0,
        r@ == slice@,
{
    let n = slice.len();
    let r = FakeArrSlice { real: slice, offset: 0, len: n as u64 };
    proof {
        assert(r@ =~= slice@);
    }
    r
}

/// A view of all of `b`.
pub fn full_slice<'a>(b: &'a FakeArrSlice<'a>) -> (r: FakeArrSlice<'a>)
    requires
        b.wf(),
    ensures
        r.wf(),
        r.root() == b.root(),
        r.spec_offset() == b.spec_offset(),
        r@ == b@,
{
    b.full_slice()
}

/// A view of no bytes.
pub fn empty() -> (r: FakeArrSlice<'static>)
    ensures
        r.wf(),
        r@.len() == 0,
{
    let e: &'static [u8] = &[];
    FakeArrSlice { real: e, offset: 0, len: 0 }
}

/// Slicing a slice is slicing the root once: the offsets add up, and the
/// bytes are those of the root at the combined offset. Every byte of a view
/// is the root's byte at the view's offset plus its index.
pub proof fn lemma_slice_of_slice(
    a: FakeArrSlice,
    r1: ShRange,
    b: FakeArrSlice,
    r2: ShRange,
    c: FakeArrSlice,
)
    requires
        a.wf(),
        range_fits(r1, a@.len()),
        is_slice_of(b, a, r1),
        range_fits(r2, b@.len()),
        is_slice_of(c, b, r2),
    ensures
        c.root() == a.root(),
        c.spec_offset() == a.spec_offset() + window_of(r1.0, r1.1, a@.len()).0 + window_of(
            r2.0,
            r2.1,
            b@.len(),
        ).0,
        c@ == a.root().subrange(c.spec_offset() as int, (c.spec_offset() + c@.len()) as int),
        c@ == a@.subrange(
            window_of(r1.0, r1.1, a@.len()).0 + window_of(r2.0, r2.1, b@.len()).0,
            window_of(r1.0, r1.1, a@.len()).0 + window_of(r2.0, r2.1, b@.len()).0 + window_of(
                r2.0,
                r2.1,
                b@.len(),
            ).1,
        ),
        forall|i: int| 0 <= i < c@.len() ==> #[trigger] c@[i] == a.root()[c.spec_offset() + i],
{
    let w1 = window_of(r1.0, r1.1, a@.len());
    let w2 = window_of(r2.0, r2.1, b@.len());
    assert(c@ =~= a@.subrange(w1.0 + w2.0, w1.0 + w2.0 + w2.1));
    assert(c@ =~= a.root().subrange(c.spec_offset() as int, (c.spec_offset() + c@.len()) as int));
}

} // verus!
