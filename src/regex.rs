//! Lowering of a regular-expression tree to a program of byte instructions.
//!
//! The program is a list of instructions: `Range(lo, hi)` consumes one byte
//! in `lo..=hi`, `Split(x, y)` forks into two threads (`x` preferred),
//! `Jump(x)` moves on to `x` and `Match` accepts. Each Unicode scalar range
//! is lowered to the alternatives of its UTF-8 byte sequences.
use vstd::prelude::*;
use vstd::layout::size_of;

verus! {

/// One instruction of a byte program.
#[derive(Clone, Copy, Debug, PartialEq, Eq, Structural)]
pub enum Inst {
    Match,
    Jump(usize),
    Split(usize, usize),
    Range(u8, u8),
}

/// Why a tree cannot be compiled.
#[derive(Clone, Copy, Debug, PartialEq, Eq, Structural)]
pub enum Error {
    /// The program would take more bytes than the limit (which is given).
    CompiledTooBig(usize),
    /// A repetition is not greedy.
    NoLazy,
    /// A word boundary assertion.
    NoWordBoundary,
    /// An anchor (empty-width) assertion.
    NoEmpty,
    /// A byte literal or byte class.
    NoBytes,
}

/// A literal: a Unicode scalar value or a raw byte.
#[derive(Clone, Copy, Debug, PartialEq, Eq, Structural)]
pub enum Literal {
    Unicode(char),
    Byte(u8),
}

/// An inclusive range of Unicode scalar values.
#[derive(Clone, Copy, Debug, PartialEq, Eq, Structural)]
pub struct ClassUnicodeRange {
    pub start: char,
    pub end: char,
}

/// A character class: ranges of Unicode scalar values, or of bytes.
#[derive(Clone, Debug)]
pub enum Class {
    Unicode(Vec<ClassUnicodeRange>),
    Bytes,
}

/// The counts a bounded repetition allows.
#[derive(Clone, Copy, Debug, PartialEq, Eq, Structural)]
pub enum RepetitionRange {
    /// `{n}`
    Exactly(u32),
    /// `{n,}`
    AtLeast(u32),
    /// `{m,n}`
    Bounded(u32, u32),
}

/// The kind of a repetition.
#[derive(Clone, Copy, Debug, PartialEq, Eq, Structural)]
pub enum RepetitionKind {
    /// `?`
    ZeroOrOne,
    /// `*`
    ZeroOrMore,
    /// `+`
    OneOrMore,
    Range(RepetitionRange),
}

/// A parsed, validated regular expression.
#[derive(Debug)]
pub enum Hir {
    Empty,
    Literal(Literal),
    Class(Class),
    /// A zero-width anchor such as `^` or `$`.
    Anchor,
    /// A word boundary such as `\b`.
    WordBoundary,
    Repetition { kind: RepetitionKind, greedy: bool, hir: Box<Hir> },
    Group(Box<Hir>),
    Concat(Vec<Hir>),
    Alternation(Vec<Hir>),
}

/// What `utf8_ranges::Utf8Sequences` yields for the scalar range
/// `range.0 ..= range.1`: alternatives, each a list of byte ranges.
pub uninterp spec fn utf8_sequences_of(range: (char, char)) -> Seq<Seq<(u8, u8)>>;

/// Relies on `utf8_ranges::Utf8Sequences::new(start, end)`: the byte-range
/// sequences whose union is the UTF-8 encoding of the scalar values in
/// `start..=end`; each has one to four ranges (`Utf8Sequence::len`), and an
/// ASCII range is the one sequence of its own byte range (`as_ascii`).
#[verifier::external_body]
fn utf8_sequences(start: char, end: char) -> (r: Vec<Vec<(u8, u8)>>)
    ensures
        (start as u32) <= (end as u32) <= 0x7f ==> r@.len() == 1 && r@[0]@ == seq![
            (start as u8, end as u8),
        ],
        r@.len() == utf8_sequences_of((start, end)).len(),
        forall|i: int| 0 <= i < r@.len() ==> (#[trigger] r@[i])@ == utf8_sequences_of((start, end))[i],
        forall|i: int|
            0 <= i < r@.len() ==> 1 <= (#[trigger] utf8_sequences_of((start, end))[i]).len() <= 4,
{
    utf8_ranges::Utf8Sequences::new(start, end).map(
        |seq| seq.as_slice().iter().map(|r| (r.start, r.end)).collect(),
    ).collect()
}

/// Whether a repetition of this kind compiles its body at all.
pub open spec fn compiles_body(kind: RepetitionKind) -> bool {
    match kind {
        RepetitionKind::Range(RepetitionRange::Exactly(m)) => m > 0,
        RepetitionKind::Range(RepetitionRange::Bounded(m, n)) => m > 0 || n > m,
        _ => true,
    }
}

/// A program of `n` instructions fits in `limit` bytes.
pub open spec fn fits(n: nat, limit: usize) -> bool {
    n * size_of::<Inst>() <= limit
}

/// The targets of `x`, if any, are at most `bound`.
pub open spec fn inst_ok(x: Inst, bound: nat) -> bool {
    match x {
        Inst::Split(a, b) => a <= bound && b <= bound,
        Inst::Jump(a) => a <= bound,
        _ => true,
    }
}

/// Every `Split` and `Jump` target is at most `bound`.
pub open spec fn targets_ok(insts: Seq<Inst>, bound: nat) -> bool {
    forall|k: int| 0 <= k < insts.len() ==> inst_ok(#[trigger] insts[k], bound)
}

/// No instruction is `Match`.
pub open spec fn no_match(insts: Seq<Inst>) -> bool {
    forall|k: int| 0 <= k < insts.len() ==> !(#[trigger] insts[k] is Match)
}

/// Whether error `e` is accounted for: the size limit when a program of
/// `total` instructions does not fit, otherwise a rejected construct (`rej`).
pub open spec fn err_ok(e: Error, rej: bool, total: nat, limit: usize) -> bool {
    match e {
        Error::CompiledTooBig(l) => l == limit && !fits(total, limit),
        _ => rej,
    }
}

proof fn lemma_fits_mono(a: nat, b: nat, limit: usize)
    requires
        a <= b,
        fits(b, limit),
    ensures
        fits(a, limit),
{
    let z = size_of::<Inst>();
    assert(a * z <= b * z) by (nonlinear_arith)
        requires
            a <= b,
    ;
}


/// A `Split` to `a` (preferred) and `b`.
pub open spec fn split_to(a: int, b: int) -> Inst {
    Inst::Split(a as usize, b as usize)
}

/// A `Jump` to `a`.
pub open spec fn jump_to(a: int) -> Inst {
    Inst::Jump(a as usize)
}

/// One `Range` per byte range.
pub open spec fn ranges_prog(rs: Seq<(u8, u8)>) -> Seq<Inst> {
    Seq::new(rs.len(), |i: int| Inst::Range(rs[i].0, rs[i].1))
}

/// The byte-range sequences one after the other (a literal's encodings).
pub open spec fn literal_prog(ss: Seq<Seq<(u8, u8)>>) -> Seq<Inst>
    decreases ss.len(),
{
    if ss.len() == 0 {
        Seq::empty()
    } else {
        literal_prog(ss.subrange(0, ss.len() - 1)) + ranges_prog(ss[ss.len() - 1])
    }
}

/// Alternatives of byte-range sequences placed at `pc`: each but the last is
/// guarded by a `Split` to it and to the next alternative, and followed by a
/// `Jump` to the common end.
pub open spec fn alternatives_prog(ss: Seq<Seq<(u8, u8)>>, pc: int) -> Seq<Inst>
    decreases ss.len(),
{
    if ss.len() == 0 {
        Seq::empty()
    } else if ss.len() == 1 {
        ranges_prog(ss[0])
    } else {
        let b = ranges_prog(ss[0]);
        let r = alternatives_prog(ss.subrange(1, ss.len() as int), pc + b.len() + 2);
        seq![split_to(pc + 1, pc + b.len() + 2)] + b + seq![jump_to(pc + b.len() + 2 + r.len())] + r
    }
}

/// The UTF-8 byte-range sequences of a class range.
pub open spec fn seqs_of(r: ClassUnicodeRange) -> Seq<Seq<(u8, u8)>> {
    utf8_sequences_of((r.start, r.end))
}

/// A Unicode class placed at `pc`: its ranges as alternatives.
pub open spec fn class_prog(rs: Seq<ClassUnicodeRange>, pc: int) -> Seq<Inst>
    decreases rs.len(),
{
    if rs.len() == 0 {
        Seq::empty()
    } else if rs.len() == 1 {
        alternatives_prog(seqs_of(rs[0]), pc)
    } else {
        let b = alternatives_prog(seqs_of(rs[0]), pc + 1);
        let r = class_prog(rs.subrange(1, rs.len() as int), pc + b.len() + 2);
        seq![split_to(pc + 1, pc + b.len() + 2)] + b + seq![jump_to(pc + b.len() + 2 + r.len())] + r
    }
}

/// The program of `h` placed at `pc` (without the final `Match`).
pub open spec fn prog(h: Hir, pc: int) -> Seq<Inst>
    decreases h, 0nat, 0nat,
{
    match h {
        Hir::Literal(Literal::Unicode(c)) => literal_prog(utf8_sequences_of((c, c))),
        Hir::Class(Class::Unicode(rs)) => class_prog(rs@, pc),
        Hir::Group(b) => prog(*b, pc),
        Hir::Concat(v) => concat_prog(v@, pc),
        Hir::Alternation(v) => alt_prog(v@, pc),
        Hir::Repetition { kind, greedy, hir } => rep_prog(kind, *hir, pc),
        _ => Seq::empty(),
    }
}

/// The programs of `hs` one after the other.
pub open spec fn concat_prog(hs: Seq<Hir>, pc: int) -> Seq<Inst>
    decreases hs, 0nat, 0nat,
{
    if hs.len() == 0 {
        Seq::empty()
    } else {
        let b = prog(hs[0], pc);
        b + concat_prog(hs.subrange(1, hs.len() as int), pc + b.len())
    }
}

/// The alternatives `hs` placed at `pc`: each but the last guarded by a
/// `Split` and followed by a `Jump` to the common end.
pub open spec fn alt_prog(hs: Seq<Hir>, pc: int) -> Seq<Inst>
    decreases hs, 0nat, 0nat,
{
    if hs.len() == 0 {
        Seq::empty()
    } else if hs.len() == 1 {
        prog(hs[0], pc)
    } else {
        let b = prog(hs[0], pc + 1);
        let r = alt_prog(hs.subrange(1, hs.len() as int), pc + b.len() + 2);
        seq![split_to(pc + 1, pc + b.len() + 2)] + b + seq![jump_to(pc + b.len() + 2 + r.len())] + r
    }
}

/// `h` repeated any number of times, at `pc`: a `Split` between the body and
/// the exit, and a `Jump` back to the `Split` after the body.
pub open spec fn star_prog(h: Hir, pc: int) -> Seq<Inst>
    decreases h, 1nat, 0nat,
{
    let b = prog(h, pc + 1);
    seq![split_to(pc + 1, pc + b.len() + 2)] + b + seq![jump_to(pc)]
}

/// `m` copies of `h`, one after the other.
pub open spec fn times_prog(h: Hir, m: nat, pc: int) -> Seq<Inst>
    decreases h, 1nat, m,
{
    if m == 0 {
        Seq::empty()
    } else {
        let b = prog(h, pc);
        b + times_prog(h, (m - 1) as nat, pc + b.len())
    }
}

/// `k` copies of `h`, each behind a `Split` to it and to the end of the
/// last copy.
pub open spec fn opt_prog(h: Hir, k: nat, pc: int) -> Seq<Inst>
    decreases h, 1nat, k,
{
    if k == 0 {
        Seq::empty()
    } else {
        let b = prog(h, pc + 1);
        let r = opt_prog(h, (k - 1) as nat, pc + 1 + b.len());
        seq![split_to(pc + 1, pc + 1 + b.len() + r.len())] + b + r
    }
}

/// A greedy repetition of `h` at `pc`.
pub open spec fn rep_prog(kind: RepetitionKind, h: Hir, pc: int) -> Seq<Inst>
    decreases h, 2nat, 0nat,
{
    match kind {
        RepetitionKind::ZeroOrOne => {
            let b = prog(h, pc + 1);
            seq![split_to(pc + 1, pc + 1 + b.len())] + b
        },
        RepetitionKind::ZeroOrMore => star_prog(h, pc),
        RepetitionKind::OneOrMore => {
            let b = prog(h, pc);
            b + seq![split_to(pc, pc + b.len() + 1)]
        },
        RepetitionKind::Range(RepetitionRange::Exactly(m)) => times_prog(h, m as nat, pc),
        RepetitionKind::Range(RepetitionRange::AtLeast(m)) => {
            let t = times_prog(h, m as nat, pc);
            t + star_prog(h, pc + t.len())
        },
        RepetitionKind::Range(RepetitionRange::Bounded(m, n)) => {
            let t = times_prog(h, m as nat, pc);
            t + (if n > m {
                opt_prog(h, (n - m) as nat, pc + t.len())
            } else {
                Seq::empty()
            })
        },
    }
}

/// The first error of compiling `h` at `pc` under `limit`, in compilation
/// order: a rejected construct is reported where it is met (a tree before
/// its later siblings), and each node's size check comes after its
/// children.
pub open spec fn error_of(h: Hir, pc: int, limit: usize) -> Option<Error>
    decreases h, 0nat, 2nat,
{
    match node_error(h, pc, limit) {
        Some(e) => Some(e),
        None => if fits((pc + prog(h, pc).len()) as nat, limit) {
            None
        } else {
            Some(Error::CompiledTooBig(limit))
        },
    }
}

/// The first error of compiling `h` at `pc` before its own size check.
pub open spec fn node_error(h: Hir, pc: int, limit: usize) -> Option<Error>
    decreases h, 0nat, 1nat,
{
    match h {
        Hir::Anchor => Some(Error::NoEmpty),
        Hir::WordBoundary => Some(Error::NoWordBoundary),
        Hir::Literal(Literal::Byte(_)) => Some(Error::NoBytes),
        Hir::Class(Class::Bytes) => Some(Error::NoBytes),
        Hir::Group(b) => error_of(*b, pc, limit),
        Hir::Concat(v) => concat_error(v@, pc, limit),
        Hir::Alternation(v) => alt_error(v@, pc, limit),
        Hir::Repetition { kind, greedy, hir } => if !greedy {
            Some(Error::NoLazy)
        } else {
            rep_error(kind, *hir, pc, limit)
        },
        _ => None,
    }
}

/// The first error of compiling `hs` one after the other.
pub open spec fn concat_error(hs: Seq<Hir>, pc: int, limit: usize) -> Option<Error>
    decreases hs, 0nat, 0nat,
{
    if hs.len() == 0 {
        None
    } else {
        match error_of(hs[0], pc, limit) {
            Some(e) => Some(e),
            None => concat_error(hs.subrange(1, hs.len() as int), pc + prog(hs[0], pc).len(), limit),
        }
    }
}

/// The first error of compiling the alternatives `hs`.
pub open spec fn alt_error(hs: Seq<Hir>, pc: int, limit: usize) -> Option<Error>
    decreases hs, 0nat, 0nat,
{
    if hs.len() == 0 {
        None
    } else if hs.len() == 1 {
        error_of(hs[0], pc, limit)
    } else {
        match error_of(hs[0], pc + 1, limit) {
            Some(e) => Some(e),
            None => alt_error(
                hs.subrange(1, hs.len() as int),
                pc + prog(hs[0], pc + 1).len() + 2,
                limit,
            ),
        }
    }
}

/// The first error of compiling `m` copies of `h`.
pub open spec fn times_error(h: Hir, m: nat, pc: int, limit: usize) -> Option<Error>
    decreases h, 1nat, m,
{
    if m == 0 {
        None
    } else {
        match error_of(h, pc, limit) {
            Some(e) => Some(e),
            None => times_error(h, (m - 1) as nat, pc + prog(h, pc).len(), limit),
        }
    }
}

/// The first error of compiling `k` optional copies of `h`.
pub open spec fn opt_error(h: Hir, k: nat, pc: int, limit: usize) -> Option<Error>
    decreases h, 1nat, k,
{
    if k == 0 {
        None
    } else {
        match error_of(h, pc + 1, limit) {
            Some(e) => Some(e),
            None => opt_error(h, (k - 1) as nat, pc + 1 + prog(h, pc + 1).len(), limit),
        }
    }
}

/// The first error of compiling a greedy repetition of `h`.
pub open spec fn rep_error(kind: RepetitionKind, h: Hir, pc: int, limit: usize) -> Option<Error>
    decreases h, 2nat, 0nat,
{
    match kind {
        RepetitionKind::ZeroOrOne => error_of(h, pc + 1, limit),
        RepetitionKind::ZeroOrMore => error_of(h, pc + 1, limit),
        RepetitionKind::OneOrMore => error_of(h, pc, limit),
        RepetitionKind::Range(RepetitionRange::Exactly(m)) => times_error(h, m as nat, pc, limit),
        RepetitionKind::Range(RepetitionRange::AtLeast(m)) => match times_error(h, m as nat, pc, limit) {
            Some(e) => Some(e),
            None => error_of(h, pc + times_prog(h, m as nat, pc).len() + 1, limit),
        },
        RepetitionKind::Range(RepetitionRange::Bounded(m, n)) => match times_error(
            h,
            m as nat,
            pc,
            limit,
        ) {
            Some(e) => Some(e),
            None => if n > m {
                opt_error(h, (n - m) as nat, pc + times_prog(h, m as nat, pc).len(), limit)
            } else {
                None
            },
        },
    }
}

/// `r` reports exactly `err`: `Ok` when it is `None`, that error otherwise.
pub open spec fn reports(r: Result<(), Error>, err: Option<Error>) -> bool {
    match r {
        Ok(_) => err is None,
        Err(e) => err == Some(e),
    }
}

/// Every `Split` and `Jump` target of `s` lies in `lo..=hi`.
pub open spec fn targets_within(s: Seq<Inst>, lo: int, hi: int) -> bool {
    forall|k: int|
        0 <= k < s.len() ==> match #[trigger] s[k] {
            Inst::Split(a, b) => lo <= a <= hi && lo <= b <= hi,
            Inst::Jump(a) => lo <= a <= hi,
            _ => true,
        }
}

proof fn lemma_within_add(a: Seq<Inst>, b: Seq<Inst>, lo: int, hi: int)
    requires
        targets_within(a, lo, hi),
        targets_within(b, lo, hi),
    ensures
        targets_within(a + b, lo, hi),
{
    assert forall|k: int| 0 <= k < (a + b).len() implies match #[trigger] (a + b)[k] {
        Inst::Split(x, y) => lo <= x <= hi && lo <= y <= hi,
        Inst::Jump(x) => lo <= x <= hi,
        _ => true,
    } by {
        if k < a.len() {
            assert((a + b)[k] == a[k]);
        } else {
            assert((a + b)[k] == b[k - a.len()]);
        }
    }
}

proof fn lemma_within_widen(a: Seq<Inst>, lo: int, hi: int, lo2: int, hi2: int)
    requires
        targets_within(a, lo, hi),
        lo2 <= lo,
        hi <= hi2,
    ensures
        targets_within(a, lo2, hi2),
{
    assert forall|k: int| 0 <= k < a.len() implies match #[trigger] a[k] {
        Inst::Split(x, y) => lo2 <= x <= hi2 && lo2 <= y <= hi2,
        Inst::Jump(x) => lo2 <= x <= hi2,
        _ => true,
    } by {
        assert(match a[k] {
            Inst::Split(x, y) => lo <= x <= hi && lo <= y <= hi,
            Inst::Jump(x) => lo <= x <= hi,
            _ => true,
        });
    }
}

proof fn lemma_ranges_within(rs: Seq<(u8, u8)>, lo: int, hi: int)
    ensures
        targets_within(ranges_prog(rs), lo, hi),
{
    assert forall|k: int| 0 <= k < ranges_prog(rs).len() implies match #[trigger] ranges_prog(rs)[k] {
        Inst::Split(x, y) => lo <= x <= hi && lo <= y <= hi,
        Inst::Jump(x) => lo <= x <= hi,
        _ => true,
    } by {
        assert(ranges_prog(rs)[k] == Inst::Range(rs[k].0, rs[k].1));
    }
}

/// The pieces of an alternative guarded by a `Split` and closed by a
/// `Jump`, all targets inside `pc..=end`.
proof fn lemma_guarded_within(b: Seq<Inst>, r: Seq<Inst>, pc: int)
    requires
        0 <= pc,
        pc + b.len() + 2 + r.len() <= usize::MAX,
        targets_within(b, pc + 1, pc + 1 + b.len()),
        targets_within(r, pc + b.len() + 2, pc + b.len() + 2 + r.len()),
    ensures
        targets_within(
            seq![split_to(pc + 1, pc + b.len() + 2)] + b + seq![jump_to(pc + b.len() + 2 + r.len())] + r,
            pc,
            pc + b.len() + 2 + r.len(),
        ),
{
    let end = pc + b.len() + 2 + r.len();
    let s1 = seq![split_to(pc + 1, pc + b.len() + 2)];
    let j1 = seq![jump_to(end)];
    assert(targets_within(s1, pc, end));
    assert(targets_within(j1, pc, end));
    lemma_within_widen(b, pc + 1, pc + 1 + b.len(), pc, end);
    lemma_within_widen(r, pc + b.len() + 2, end, pc, end);
    lemma_within_add(s1, b, pc, end);
    lemma_within_add(s1 + b, j1, pc, end);
    lemma_within_add(s1 + b + j1, r, pc, end);
}

proof fn lemma_alternatives_within(ss: Seq<Seq<(u8, u8)>>, pc: int)
    requires
        0 <= pc,
        pc + alternatives_prog(ss, pc).len() <= usize::MAX,
    ensures
        targets_within(alternatives_prog(ss, pc), pc, pc + alternatives_prog(ss, pc).len()),
    decreases ss.len(),
{
    if ss.len() == 1 {
        lemma_ranges_within(ss[0], pc, pc + ranges_prog(ss[0]).len());
    } else if ss.len() > 1 {
        let b = ranges_prog(ss[0]);
        lemma_ranges_within(ss[0], pc + 1, pc + 1 + b.len());
        lemma_alternatives_within(ss.subrange(1, ss.len() as int), pc + b.len() + 2);
        lemma_guarded_within(b, alternatives_prog(ss.subrange(1, ss.len() as int), pc + b.len() + 2), pc);
    }
}

proof fn lemma_class_within(rs: Seq<ClassUnicodeRange>, pc: int)
    requires
        0 <= pc,
        pc + class_prog(rs, pc).len() <= usize::MAX,
    ensures
        targets_within(class_prog(rs, pc), pc, pc + class_prog(rs, pc).len()),
    decreases rs.len(),
{
    if rs.len() == 1 {
        lemma_alternatives_within(seqs_of(rs[0]), pc);
    } else if rs.len() > 1 {
        let b = alternatives_prog(seqs_of(rs[0]), pc + 1);
        lemma_alternatives_within(seqs_of(rs[0]), pc + 1);
        lemma_class_within(rs.subrange(1, rs.len() as int), pc + b.len() + 2);
        lemma_guarded_within(b, class_prog(rs.subrange(1, rs.len() as int), pc + b.len() + 2), pc);
    }
}

proof fn lemma_literal_within(ss: Seq<Seq<(u8, u8)>>, lo: int, hi: int)
    ensures
        targets_within(literal_prog(ss), lo, hi),
    decreases ss.len(),
{
    if ss.len() > 0 {
        lemma_literal_within(ss.subrange(0, ss.len() - 1), lo, hi);
        lemma_ranges_within(ss[ss.len() - 1], lo, hi);
        lemma_within_add(literal_prog(ss.subrange(0, ss.len() - 1)), ranges_prog(ss[ss.len() - 1]), lo, hi);
    }
}

/// Every `Split` and `Jump` of the program of `h` placed at `pc` targets an
/// instruction of that program or the one right after it: none points
/// before `pc`.
pub proof fn lemma_prog_targets(h: Hir, pc: int)
    requires
        0 <= pc,
        pc + prog(h, pc).len() <= usize::MAX,
    ensures
        targets_within(prog(h, pc), pc, pc + prog(h, pc).len()),
    decreases h, 0nat, 0nat,
{
    match h {
        Hir::Literal(Literal::Unicode(c)) => {
            lemma_literal_within(utf8_sequences_of((c, c)), pc, pc + prog(h, pc).len());
        },
        Hir::Class(Class::Unicode(rs)) => {
            lemma_class_within(rs@, pc);
        },
        Hir::Group(b) => {
            lemma_prog_targets(*b, pc);
        },
        Hir::Concat(v) => {
            lemma_concat_targets(v@, pc);
        },
        Hir::Alternation(v) => {
            lemma_alt_targets(v@, pc);
        },
        Hir::Repetition { kind, greedy, hir } => {
            lemma_rep_targets(kind, *hir, pc);
        },
        _ => {},
    }
}

proof fn lemma_concat_targets(hs: Seq<Hir>, pc: int)
    requires
        0 <= pc,
        pc + concat_prog(hs, pc).len() <= usize::MAX,
    ensures
        targets_within(concat_prog(hs, pc), pc, pc + concat_prog(hs, pc).len()),
    decreases hs, 0nat, 0nat,
{
    if hs.len() > 0 {
        let b = prog(hs[0], pc);
        let r = concat_prog(hs.subrange(1, hs.len() as int), pc + b.len());
        let end = pc + b.len() + r.len();
        lemma_prog_targets(hs[0], pc);
        lemma_concat_targets(hs.subrange(1, hs.len() as int), pc + b.len());
        lemma_within_widen(b, pc, pc + b.len(), pc, end);
        lemma_within_widen(r, pc + b.len(), end, pc, end);
        lemma_within_add(b, r, pc, end);
    }
}

proof fn lemma_alt_targets(hs: Seq<Hir>, pc: int)
    requires
        0 <= pc,
        pc + alt_prog(hs, pc).len() <= usize::MAX,
    ensures
        targets_within(alt_prog(hs, pc), pc, pc + alt_prog(hs, pc).len()),
    decreases hs, 0nat, 0nat,
{
    if hs.len() == 1 {
        lemma_prog_targets(hs[0], pc);
    } else if hs.len() > 1 {
        let b = prog(hs[0], pc + 1);
        lemma_prog_targets(hs[0], pc + 1);
        lemma_alt_targets(hs.subrange(1, hs.len() as int), pc + b.len() + 2);
        lemma_guarded_within(b, alt_prog(hs.subrange(1, hs.len() as int), pc + b.len() + 2), pc);
    }
}

proof fn lemma_star_targets(h: Hir, pc: int)
    requires
        0 <= pc,
        pc + star_prog(h, pc).len() <= usize::MAX,
    ensures
        targets_within(star_prog(h, pc), pc, pc + star_prog(h, pc).len()),
    decreases h, 1nat, 0nat,
{
    let b = prog(h, pc + 1);
    let end = pc + b.len() + 2;
    lemma_prog_targets(h, pc + 1);
    let s1 = seq![split_to(pc + 1, pc + b.len() + 2)];
    let j1 = seq![jump_to(pc)];
    assert(targets_within(s1, pc, end));
    assert(targets_within(j1, pc, end));
    lemma_within_widen(b, pc + 1, pc + 1 + b.len(), pc, end);
    lemma_within_add(s1, b, pc, end);
    lemma_within_add(s1 + b, j1, pc, end);
}

proof fn lemma_times_targets(h: Hir, m: nat, pc: int)
    requires
        0 <= pc,
        pc + times_prog(h, m, pc).len() <= usize::MAX,
    ensures
        targets_within(times_prog(h, m, pc), pc, pc + times_prog(h, m, pc).len()),
    decreases h, 1nat, m,
{
    if m > 0 {
        let b = prog(h, pc);
        let r = times_prog(h, (m - 1) as nat, pc + b.len());
        let end = pc + b.len() + r.len();
        lemma_prog_targets(h, pc);
        lemma_times_targets(h, (m - 1) as nat, pc + b.len());
        lemma_within_widen(b, pc, pc + b.len(), pc, end);
        lemma_within_widen(r, pc + b.len(), end, pc, end);
        lemma_within_add(b, r, pc, end);
    }
}

proof fn lemma_opt_targets(h: Hir, k: nat, pc: int)
    requires
        0 <= pc,
        pc + opt_prog(h, k, pc).len() <= usize::MAX,
    ensures
        targets_within(opt_prog(h, k, pc), pc, pc + opt_prog(h, k, pc).len()),
    decreases h, 1nat, k,
{
    if k > 0 {
        let b = prog(h, pc + 1);
        let r = opt_prog(h, (k - 1) as nat, pc + 1 + b.len());
        let end = pc + 1 + b.len() + r.len();
        lemma_prog_targets(h, pc + 1);
        lemma_opt_targets(h, (k - 1) as nat, pc + 1 + b.len());
        let s1 = seq![split_to(pc + 1, end)];
        assert(targets_within(s1, pc, end));
        lemma_within_widen(b, pc + 1, pc + 1 + b.len(), pc, end);
        lemma_within_widen(r, pc + 1 + b.len(), end, pc, end);
        lemma_within_add(s1, b, pc, end);
        lemma_within_add(s1 + b, r, pc, end);
    }
}

proof fn lemma_rep_targets(kind: RepetitionKind, h: Hir, pc: int)
    requires
        0 <= pc,
        pc + rep_prog(kind, h, pc).len() <= usize::MAX,
    ensures
        targets_within(rep_prog(kind, h, pc), pc, pc + rep_prog(kind, h, pc).len()),
    decreases h, 2nat, 0nat,
{
    let end = pc + rep_prog(kind, h, pc).len();
    match kind {
        RepetitionKind::ZeroOrOne => {
            let b = prog(h, pc + 1);
            lemma_prog_targets(h, pc + 1);
            let s1 = seq![split_to(pc + 1, pc + 1 + b.len())];
            assert(targets_within(s1, pc, end));
            lemma_within_widen(b, pc + 1, pc + 1 + b.len(), pc, end);
            lemma_within_add(s1, b, pc, end);
        },
        RepetitionKind::ZeroOrMore => {
            lemma_star_targets(h, pc);
        },
        RepetitionKind::OneOrMore => {
            let b = prog(h, pc);
            lemma_prog_targets(h, pc);
            let s1 = seq![split_to(pc, pc + b.len() + 1)];
            assert(targets_within(s1, pc, end));
            lemma_within_widen(b, pc, pc + b.len(), pc, end);
            lemma_within_add(b, s1, pc, end);
        },
        RepetitionKind::Range(RepetitionRange::Exactly(m)) => {
            lemma_times_targets(h, m as nat, pc);
        },
        RepetitionKind::Range(RepetitionRange::AtLeast(m)) => {
            let t = times_prog(h, m as nat, pc);
            let st = star_prog(h, pc + t.len());
            lemma_times_targets(h, m as nat, pc);
            lemma_star_targets(h, pc + t.len());
            lemma_within_widen(t, pc, pc + t.len(), pc, end);
            lemma_within_widen(st, pc + t.len(), end, pc, end);
            lemma_within_add(t, st, pc, end);
        },
        RepetitionKind::Range(RepetitionRange::Bounded(m, n)) => {
            let t = times_prog(h, m as nat, pc);
            lemma_times_targets(h, m as nat, pc);
            lemma_within_widen(t, pc, pc + t.len(), pc, end);
            if n > m {
                let o = opt_prog(h, (n - m) as nat, pc + t.len());
                lemma_opt_targets(h, (n - m) as nat, pc + t.len());
                lemma_within_widen(o, pc + t.len(), end, pc, end);
                lemma_within_add(t, o, pc, end);
            } else {
                assert(rep_prog(kind, h, pc) =~= t);
            }
        },
    }
}

/// Compiling `h` meets a construct that gives error `e` (other than the
/// size limit).
pub open spec fn rejected(h: Hir, e: Error) -> bool
    decreases h,
{
    match h {
        Hir::Anchor => e == Error::NoEmpty,
        Hir::WordBoundary => e == Error::NoWordBoundary,
        Hir::Literal(Literal::Byte(_)) => e == Error::NoBytes,
        Hir::Class(Class::Bytes) => e == Error::NoBytes,
        Hir::Group(b) => rejected(*b, e),
        Hir::Concat(v) => list_rejected(v@, e),
        Hir::Alternation(v) => list_rejected(v@, e),
        Hir::Repetition { kind, greedy, hir } => if !greedy {
            e == Error::NoLazy
        } else {
            compiles_body(kind) && rejected(*hir, e)
        },
        _ => false,
    }
}

/// Some tree of `hs` is rejected with `e`.
pub open spec fn list_rejected(hs: Seq<Hir>, e: Error) -> bool
    decreases hs,
{
    if hs.len() == 0 {
        false
    } else {
        rejected(hs[0], e) || list_rejected(hs.subrange(1, hs.len() as int), e)
    }
}

/// `h` holds a construct that the compiler rejects.
pub open spec fn unsupported(h: Hir) -> bool {
    rejected(h, Error::NoEmpty) || rejected(h, Error::NoWordBoundary) || rejected(h, Error::NoBytes)
        || rejected(h, Error::NoLazy)
}

/// Some tree of `hs` holds a construct that the compiler rejects.
pub open spec fn list_unsupported(hs: Seq<Hir>) -> bool {
    list_rejected(hs, Error::NoEmpty) || list_rejected(hs, Error::NoWordBoundary) || list_rejected(
        hs,
        Error::NoBytes,
    ) || list_rejected(hs, Error::NoLazy)
}

/// The byte-range sequences held by `v`.
pub open spec fn seqs_view(v: Seq<Vec<(u8, u8)>>) -> Seq<Seq<(u8, u8)>> {
    Seq::new(v.len(), |i: int| v[i]@)
}

proof fn lemma_targets_push(s: Seq<Inst>, x: Inst, b: nat, b2: nat)
    requires
        targets_ok(s, b),
        inst_ok(x, b2),
        b <= b2,
    ensures
        targets_ok(s.push(x), b2),
{
    assert forall|k: int| 0 <= k < s.push(x).len() implies inst_ok(#[trigger] s.push(x)[k], b2) by {
        if k < s.len() {
            assert(s.push(x)[k] == s[k]);
            assert(inst_ok(s[k], b));
        }
    }
}

proof fn lemma_targets_update(s: Seq<Inst>, i: int, x: Inst, b: nat)
    requires
        targets_ok(s, b),
        inst_ok(x, b),
        0 <= i < s.len(),
    ensures
        targets_ok(s.update(i, x), b),
{
    assert forall|k: int| 0 <= k < s.len() implies inst_ok(#[trigger] s.update(i, x)[k], b) by {
        if k != i {
            assert(s.update(i, x)[k] == s[k]);
        }
    }
}

/// Compiles trees to byte programs of bounded size.
pub struct Compiler {
    size_limit: usize,
    insts: Vec<Inst>,
}

impl Compiler {
    /// The instructions emitted so far.
    pub closed spec fn spec_insts(&self) -> Seq<Inst> {
        self.insts@
    }

    /// The size limit in bytes.
    pub closed spec fn spec_limit(&self) -> usize {
        self.size_limit
    }

    pub closed spec fn wf(&self) -> bool {
        &&& targets_ok(self.insts@, self.insts@.len())
        &&& no_match(self.insts@)
    }

    /// A compiler with no instructions yet and the given size limit.
    pub fn new(size_limit: usize) -> (r: Compiler)
        ensures
            r.wf(),
            r.spec_insts().len() == 0,
            r.spec_limit() == size_limit,
    {
        Compiler { size_limit, insts: Vec::new() }
    }

    /// Whether the program so far fits in the size limit.
    fn check_size(&self) -> (r: Result<(), Error>)
        ensures
            r is Ok <==> fits(self.insts@.len(), self.size_limit),
            r is Err ==> r == Err::<(), Error>(Error::CompiledTooBig(self.size_limit)),
    {
        let sz = core::mem::size_of::<Inst>();
        match self.insts.len().checked_mul(sz) {
            Some(p) => if p > self.size_limit {
                Err(Error::CompiledTooBig(self.size_limit))
            } else {
                Ok(())
            },
            None => Err(Error::CompiledTooBig(self.size_limit)),
        }
    }

    /// Appends an instruction.
    fn push(&mut self, x: Inst)
        requires
            old(self).wf(),
            inst_ok(x, old(self).insts@.len() + 1),
            !(x is Match),
        ensures
            final(self).wf(),
            final(self).insts@ == old(self).insts@.push(x),
            final(self).size_limit == old(self).size_limit,
    {
        proof {
            lemma_targets_push(self.insts@, x, self.insts@.len(), self.insts@.len() + 1);
        }
        let ghost before = self.insts@;
        self.insts.push(x);
        proof {
            assert forall|k: int| 0 <= k < self.insts@.len() implies !(#[trigger] self.insts@[k] is Match) by {
                if k < before.len() {
                    assert(self.insts@[k] == before[k]);
                }
            }
        }
    }

    /// Appends a `Split` whose targets are patched later, and returns its
    /// index.
    fn empty_split(&mut self) -> (r: usize)
        requires
            old(self).wf(),
        ensures
            final(self).wf(),
            final(self).insts@ == old(self).insts@.push(Inst::Split(0, 0)),
            r == old(self).insts@.len(),
            final(self).size_limit == old(self).size_limit,
    {
        self.push(Inst::Split(0, 0));
        self.insts.len() - 1
    }

    /// Sets the targets of the `Split` at index `i`.
    fn set_split(&mut self, i: usize, pc1: usize, pc2: usize)
        requires
            old(self).wf(),
            i < old(self).insts@.len(),
            old(self).insts@[i as int] is Split,
            pc1 <= old(self).insts@.len(),
            pc2 <= old(self).insts@.len(),
        ensures
            final(self).wf(),
            final(self).insts@ == old(self).insts@.update(i as int, Inst::Split(pc1, pc2)),
            final(self).size_limit == old(self).size_limit,
    {
        proof {
            lemma_targets_update(self.insts@, i as int, Inst::Split(pc1, pc2), self.insts@.len());
        }
        let ghost before = self.insts@;
        self.insts.set(i, Inst::Split(pc1, pc2));
        proof {
            assert forall|k: int| 0 <= k < self.insts@.len() implies !(#[trigger] self.insts@[k] is Match) by {
                if k != i {
                    assert(self.insts@[k] == before[k]);
                }
            }
        }
    }

    /// Appends a `Jump` whose target is patched later, and returns its index.
    fn empty_jump(&mut self) -> (r: usize)
        requires
            old(self).wf(),
        ensures
            final(self).wf(),
            final(self).insts@ == old(self).insts@.push(Inst::Jump(0)),
            r == old(self).insts@.len(),
            final(self).size_limit == old(self).size_limit,
    {
        self.push(Inst::Jump(0));
        self.insts.len() - 1
    }

    /// Sets the target of the `Jump` at index `i`.
    fn set_jump(&mut self, i: usize, pc: usize)
        requires
            old(self).wf(),
            i < old(self).insts@.len(),
            old(self).insts@[i as int] is Jump,
            pc <= old(self).insts@.len(),
        ensures
            final(self).wf(),
            final(self).insts@ == old(self).insts@.update(i as int, Inst::Jump(pc)),
            final(self).size_limit == old(self).size_limit,
    {
        proof {
            lemma_targets_update(self.insts@, i as int, Inst::Jump(pc), self.insts@.len());
        }
        let ghost before = self.insts@;
        self.insts.set(i, Inst::Jump(pc));
        proof {
            assert forall|k: int| 0 <= k < self.insts@.len() implies !(#[trigger] self.insts@[k] is Match) by {
                if k != i {
                    assert(self.insts@[k] == before[k]);
                }
            }
        }
    }


    /// The instructions emitted so far.
    pub fn program(&self) -> (r: &Vec<Inst>)
        ensures
            r@ == self.spec_insts(),
    {
        &self.insts
    }

    /// Appends one `Range` per byte range of `ranges`.
    fn compile_utf8_ranges(&mut self, ranges: &Vec<(u8, u8)>)
        requires
            old(self).wf(),
        ensures
            final(self).wf(),
            final(self).insts@ == old(self).insts@ + ranges_prog(ranges@),
            final(self).size_limit == old(self).size_limit,
    {
        let ghost l0 = self.insts@;
        let mut i: usize = 0;
        proof {
            assert(self.insts@ =~= l0 + ranges_prog(ranges@.subrange(0, 0)));
        }
        while i < ranges.len()
            invariant
                self.wf(),
                i <= ranges@.len(),
                self.insts@ == l0 + ranges_prog(ranges@.subrange(0, i as int)),
                self.size_limit == old(self).size_limit,
                l0 == old(self).insts@,
            decreases ranges@.len() - i,
        {
            let (lo, hi) = ranges[i];
            self.push(Inst::Range(lo, hi));
            i = i + 1;
            proof {
                assert(self.insts@ =~= l0 + ranges_prog(ranges@.subrange(0, i as int)));
            }
        }
        proof {
            assert(ranges@.subrange(0, ranges@.len() as int) =~= ranges@);
        }
    }

    /// Appends alternatives `seqs[i..]` of byte-range sequences.
    fn alternatives_from(&mut self, seqs: &Vec<Vec<(u8, u8)>>, i: usize)
        requires
            old(self).wf(),
            i < seqs@.len(),
        ensures
            final(self).wf(),
            final(self).insts@ == old(self).insts@ + alternatives_prog(
                seqs_view(seqs@).subrange(i as int, seqs@.len() as int),
                old(self).insts@.len() as int,
            ),
            final(self).size_limit == old(self).size_limit,
        decreases seqs@.len() - i,
    {
        let ghost ss = seqs_view(seqs@).subrange(i as int, seqs@.len() as int);
        let ghost pc = self.insts@.len() as int;
        let ghost l0 = self.insts@;
        proof {
            assert(ss[0] == seqs@[i as int]@);
        }
        if i == seqs.len() - 1 {
            self.compile_utf8_ranges(&seqs[i]);
            return;
        }
        proof {
            assert(ss.subrange(1, ss.len() as int) =~= seqs_view(seqs@).subrange(i + 1, seqs@.len() as int));
        }
        let split = self.empty_split();
        let j1 = self.insts.len();
        self.compile_utf8_ranges(&seqs[i]);
        let jmp = self.empty_jump();
        let j2 = self.insts.len();
        self.set_split(split, j1, j2);
        let ghost mid = self.insts@;
        self.alternatives_from(seqs, i + 1);
        let end = self.insts.len();
        self.set_jump(jmp, end);
        proof {
            let b = ranges_prog(ss[0]);
            let r = alternatives_prog(ss.subrange(1, ss.len() as int), pc + b.len() + 2);
            assert(mid =~= l0 + seq![split_to(pc + 1, pc + b.len() + 2)] + b + seq![Inst::Jump(0)]);
            assert(self.insts@ =~= l0 + alternatives_prog(ss, pc));
        }
    }

    /// Appends the alternatives `seqs` of byte-range sequences: each but the
    /// last behind a `Split` and followed by a `Jump` to the common end.
    pub fn compile_alternatives(&mut self, seqs: &Vec<Vec<(u8, u8)>>)
        requires
            old(self).wf(),
        ensures
            final(self).wf(),
            final(self).spec_insts() == old(self).spec_insts() + alternatives_prog(
                seqs_view(seqs@),
                old(self).spec_insts().len() as int,
            ),
            final(self).spec_limit() == old(self).spec_limit(),
    {
        if seqs.len() == 0 {
            proof {
                assert(self.insts@ =~= old(self).insts@ + alternatives_prog(seqs_view(seqs@), self.insts@.len() as int));
            }
            return;
        }
        self.alternatives_from(seqs, 0);
        proof {
            assert(seqs_view(seqs@).subrange(0, seqs@.len() as int) =~= seqs_view(seqs@));
        }
    }

    /// Appends the alternatives of the UTF-8 sequences of one class range.
    fn compile_class_range(&mut self, char_range: ClassUnicodeRange)
        requires
            old(self).wf(),
        ensures
            final(self).wf(),
            final(self).insts@ == old(self).insts@ + alternatives_prog(
                seqs_of(char_range),
                old(self).insts@.len() as int,
            ),
            final(self).size_limit == old(self).size_limit,
    {
        let seqs = utf8_sequences(char_range.start, char_range.end);
        proof {
            assert(seqs_view(seqs@) =~= seqs_of(char_range));
        }
        self.compile_alternatives(&seqs);
    }

    /// Appends the alternatives `ranges[i..]` of a class.
    fn class_from(&mut self, ranges: &Vec<ClassUnicodeRange>, i: usize)
        requires
            old(self).wf(),
            i < ranges@.len(),
        ensures
            final(self).wf(),
            final(self).insts@ == old(self).insts@ + class_prog(
                ranges@.subrange(i as int, ranges@.len() as int),
                old(self).insts@.len() as int,
            ),
            final(self).size_limit == old(self).size_limit,
        decreases ranges@.len() - i,
    {
        let ghost rs = ranges@.subrange(i as int, ranges@.len() as int);
        let ghost pc = self.insts@.len() as int;
        let ghost l0 = self.insts@;
        proof {
            assert(rs[0] == ranges@[i as int]);
        }
        if i == ranges.len() - 1 {
            self.compile_class_range(ranges[i]);
            return;
        }
        proof {
            assert(rs.subrange(1, rs.len() as int) =~= ranges@.subrange(i + 1, ranges@.len() as int));
        }
        let split = self.empty_split();
        let j1 = self.insts.len();
        self.compile_class_range(ranges[i]);
        let jmp = self.empty_jump();
        let j2 = self.insts.len();
        self.set_split(split, j1, j2);
        let ghost mid = self.insts@;
        self.class_from(ranges, i + 1);
        let end = self.insts.len();
        self.set_jump(jmp, end);
        proof {
            let b = alternatives_prog(seqs_of(rs[0]), pc + 1);
            assert(mid =~= l0 + seq![split_to(pc + 1, pc + b.len() + 2)] + b + seq![Inst::Jump(0)]);
            assert(self.insts@ =~= l0 + class_prog(rs, pc));
        }
    }

    /// Appends the alternatives of the ranges of a Unicode class.
    fn compile_class(&mut self, ranges: &Vec<ClassUnicodeRange>)
        requires
            old(self).wf(),
        ensures
            final(self).wf(),
            final(self).insts@ == old(self).insts@ + class_prog(ranges@, old(self).insts@.len() as int),
            final(self).size_limit == old(self).size_limit,
    {
        if ranges.len() == 0 {
            proof {
                assert(self.insts@ =~= old(self).insts@ + class_prog(ranges@, self.insts@.len() as int));
            }
            return;
        }
        self.class_from(ranges, 0);
        proof {
            assert(ranges@.subrange(0, ranges@.len() as int) =~= ranges@);
        }
    }

    /// Appends the byte ranges of every UTF-8 sequence of one scalar value.
    fn compile_literal(&mut self, ch: char)
        requires
            old(self).wf(),
        ensures
            final(self).wf(),
            final(self).insts@ == old(self).insts@ + literal_prog(utf8_sequences_of((ch, ch))),
            final(self).size_limit == old(self).size_limit,
    {
        let ghost l0 = self.insts@;
        let seqs = utf8_sequences(ch, ch);
        let ghost ss = utf8_sequences_of((ch, ch));
        let mut i: usize = 0;
        proof {
            assert(ss.subrange(0, 0) =~= Seq::<Seq<(u8, u8)>>::empty());
            assert(self.insts@ =~= l0 + literal_prog(ss.subrange(0, 0)));
        }
        while i < seqs.len()
            invariant
                self.wf(),
                seqs@.len() == ss.len(),
                forall|k: int| 0 <= k < ss.len() ==> (#[trigger] seqs@[k])@ == ss[k],
                i <= ss.len(),
                self.insts@ == l0 + literal_prog(ss.subrange(0, i as int)),
                self.size_limit == old(self).size_limit,
            decreases ss.len() - i,
        {
            self.compile_utf8_ranges(&seqs[i]);
            proof {
                let t = ss.subrange(0, i + 1);
                assert(t.subrange(0, i as int) =~= ss.subrange(0, i as int));
                assert(self.insts@ =~= l0 + literal_prog(t));
            }
            i = i + 1;
        }
        proof {
            assert(ss.subrange(0, ss.len() as int) =~= ss);
        }
    }

    /// Appends the programs of `hirs[i..]` one after the other.
    fn c_concat_from(&mut self, hirs: &Vec<Hir>, i: usize) -> (r: Result<(), Error>)
        requires
            old(self).wf(),
            i <= hirs@.len(),
        ensures
            final(self).wf(),
            final(self).size_limit == old(self).size_limit,
            r is Ok ==> final(self).insts@ == old(self).insts@ + concat_prog(hirs@.subrange(i as int, hirs@.len() as int), old(self).insts@.len() as int) && !(list_unsupported(hirs@.subrange(i as int, hirs@.len() as int))),
            (!(list_unsupported(hirs@.subrange(i as int, hirs@.len() as int))) && fits(old(self).insts@.len() + concat_prog(hirs@.subrange(i as int, hirs@.len() as int), old(self).insts@.len() as int).len(), old(self).size_limit)) ==> r is Ok,
            match r {
                Err(e) => err_ok(e, list_rejected(hirs@.subrange(i as int, hirs@.len() as int), e), old(self).insts@.len() + concat_prog(hirs@.subrange(i as int, hirs@.len() as int), old(self).insts@.len() as int).len(), old(self).size_limit),
                Ok(_) => true,
            },
            reports(r, concat_error(hirs@.subrange(i as int, hirs@.len() as int), old(self).insts@.len() as int, old(self).size_limit)),
        decreases hirs@, 0nat, hirs@.len() - i,
    {
        let ghost hs = hirs@.subrange(i as int, hirs@.len() as int);
        let ghost pc = self.insts@.len() as int;
        let ghost l0 = self.insts@;
        let ghost limit = self.size_limit;
        if i == hirs.len() {
            proof {
                assert(self.insts@ =~= l0 + concat_prog(hs, pc));
            }
            return Ok(());
        }
        let ghost total = pc + concat_prog(hs, pc).len();
        proof {
            assert(hs[0] == hirs@[i as int]);
            assert(hs.subrange(1, hs.len() as int) =~= hirs@.subrange(i + 1, hirs@.len() as int));
            assert(decreases_to!(hirs@ => hirs@[i as int]));
            if fits((total) as nat, limit) {
                lemma_fits_mono((pc + prog(hs[0], pc).len()) as nat, total as nat, limit);
            }
        }
        match self.c(&hirs[i]) {
            Err(e) => {
                return Err(e);
            },
            Ok(()) => {},
        }
        let ghost mid = self.insts@;
        match self.c_concat_from(hirs, i + 1) {
            Err(e) => {
                return Err(e);
            },
            Ok(()) => {},
        }
        proof {
            assert(self.insts@ =~= l0 + concat_prog(hs, pc));
        }
        Ok(())
    }

    /// Appends the alternatives `hirs[i..]`: each but the last behind a
    /// `Split` and followed by a `Jump` to the common end.
    fn c_alt_from(&mut self, hirs: &Vec<Hir>, i: usize) -> (r: Result<(), Error>)
        requires
            old(self).wf(),
            i < hirs@.len(),
        ensures
            final(self).wf(),
            final(self).size_limit == old(self).size_limit,
            r is Ok ==> final(self).insts@ == old(self).insts@ + alt_prog(hirs@.subrange(i as int, hirs@.len() as int), old(self).insts@.len() as int) && !(list_unsupported(hirs@.subrange(i as int, hirs@.len() as int))),
            (!(list_unsupported(hirs@.subrange(i as int, hirs@.len() as int))) && fits(old(self).insts@.len() + alt_prog(hirs@.subrange(i as int, hirs@.len() as int), old(self).insts@.len() as int).len(), old(self).size_limit)) ==> r is Ok,
            match r {
                Err(e) => err_ok(e, list_rejected(hirs@.subrange(i as int, hirs@.len() as int), e), old(self).insts@.len() + alt_prog(hirs@.subrange(i as int, hirs@.len() as int), old(self).insts@.len() as int).len(), old(self).size_limit),
                Ok(_) => true,
            },
            reports(r, alt_error(hirs@.subrange(i as int, hirs@.len() as int), old(self).insts@.len() as int, old(self).size_limit)),
        decreases hirs@, 0nat, hirs@.len() - i,
    {
        let ghost hs = hirs@.subrange(i as int, hirs@.len() as int);
        let ghost pc = self.insts@.len() as int;
        let ghost l0 = self.insts@;
        let ghost limit = self.size_limit;
        proof {
            assert(hs[0] == hirs@[i as int]);
            assert(hs.subrange(1, hs.len() as int) =~= hirs@.subrange(i + 1, hirs@.len() as int));
            assert(decreases_to!(hirs@ => hirs@[i as int]));
        }
        if i == hirs.len() - 1 {
            proof {
                let t = hs.subrange(1, hs.len() as int);
                assert(t =~= Seq::<Hir>::empty());
                assert(!list_rejected(t, Error::NoEmpty));
                assert(!list_rejected(t, Error::NoWordBoundary));
                assert(!list_rejected(t, Error::NoBytes));
                assert(!list_rejected(t, Error::NoLazy));
                assert forall|e: Error| list_rejected(hs, e) == rejected(hs[0], e) by {
                    assert(!list_rejected(t, e));
                }
                assert(alt_prog(hs, pc) == prog(hs[0], pc));
            }
            return self.c(&hirs[i]);
        }
        let ghost total = pc + alt_prog(hs, pc).len();
        proof {
            if fits((total) as nat, limit) {
                lemma_fits_mono((pc + 1 + prog(hs[0], pc + 1).len()) as nat, total as nat, limit);
            }
        }
        let split = self.empty_split();
        let j1 = self.insts.len();
        match self.c(&hirs[i]) {
            Err(e) => {
                return Err(e);
            },
            Ok(()) => {},
        }
        let jmp = self.empty_jump();
        let j2 = self.insts.len();
        self.set_split(split, j1, j2);
        let ghost mid = self.insts@;
        match self.c_alt_from(hirs, i + 1) {
            Err(e) => {
                return Err(e);
            },
            Ok(()) => {},
        }
        let end = self.insts.len();
        self.set_jump(jmp, end);
        proof {
            let b = prog(hs[0], pc + 1);
            assert(mid =~= l0 + seq![split_to(pc + 1, pc + b.len() + 2)] + b + seq![Inst::Jump(0)]);
            assert(self.insts@ =~= l0 + alt_prog(hs, pc));
        }
        Ok(())
    }

    /// Appends `m` copies of the program of `hir`.
    fn c_times(&mut self, hir: &Hir, m: u32) -> (r: Result<(), Error>)
        requires
            old(self).wf(),
        ensures
            final(self).wf(),
            final(self).size_limit == old(self).size_limit,
            r is Ok ==> final(self).insts@ == old(self).insts@ + times_prog(*hir, m as nat, old(self).insts@.len() as int) && !(m > 0 && unsupported(*hir)),
            (!(m > 0 && unsupported(*hir)) && fits(old(self).insts@.len() + times_prog(*hir, m as nat, old(self).insts@.len() as int).len(), old(self).size_limit)) ==> r is Ok,
            match r {
                Err(e) => err_ok(e, m > 0 && rejected(*hir, e), old(self).insts@.len() + times_prog(*hir, m as nat, old(self).insts@.len() as int).len(), old(self).size_limit),
                Ok(_) => true,
            },
            reports(r, times_error(*hir, m as nat, old(self).insts@.len() as int, old(self).size_limit)),
        decreases hir, 1nat, m,
    {
        let ghost pc = self.insts@.len() as int;
        let ghost l0 = self.insts@;
        let ghost limit = self.size_limit;
        if m == 0 {
            proof {
                assert(self.insts@ =~= l0 + times_prog(*hir, 0, pc));
            }
            return Ok(());
        }
        let ghost total = pc + times_prog(*hir, m as nat, pc).len();
        proof {
            if fits((total) as nat, limit) {
                lemma_fits_mono((pc + prog(*hir, pc).len()) as nat, total as nat, limit);
            }
        }
        match self.c(hir) {
            Err(e) => {
                return Err(e);
            },
            Ok(()) => {},
        }
        match self.c_times(hir, m - 1) {
            Err(e) => {
                return Err(e);
            },
            Ok(()) => {},
        }
        proof {
            assert(self.insts@ =~= l0 + times_prog(*hir, m as nat, pc));
        }
        Ok(())
    }

    /// Appends `k` copies of the program of `hir`, each behind a `Split`
    /// that may skip to the end of the last copy.
    fn c_optional_copies(&mut self, hir: &Hir, k: u32) -> (r: Result<(), Error>)
        requires
            old(self).wf(),
        ensures
            final(self).wf(),
            final(self).size_limit == old(self).size_limit,
            r is Ok ==> final(self).insts@ == old(self).insts@ + opt_prog(*hir, k as nat, old(self).insts@.len() as int) && !(k > 0 && unsupported(*hir)),
            (!(k > 0 && unsupported(*hir)) && fits(old(self).insts@.len() + opt_prog(*hir, k as nat, old(self).insts@.len() as int).len(), old(self).size_limit)) ==> r is Ok,
            match r {
                Err(e) => err_ok(e, k > 0 && rejected(*hir, e), old(self).insts@.len() + opt_prog(*hir, k as nat, old(self).insts@.len() as int).len(), old(self).size_limit),
                Ok(_) => true,
            },
            reports(r, opt_error(*hir, k as nat, old(self).insts@.len() as int, old(self).size_limit)),
        decreases hir, 1nat, k,
    {
        let ghost pc = self.insts@.len() as int;
        let ghost l0 = self.insts@;
        let ghost limit = self.size_limit;
        if k == 0 {
            proof {
                assert(self.insts@ =~= l0 + opt_prog(*hir, 0, pc));
            }
            return Ok(());
        }
        let ghost total = pc + opt_prog(*hir, k as nat, pc).len();
        proof {
            if fits((total) as nat, limit) {
                lemma_fits_mono((pc + 1 + prog(*hir, pc + 1).len()) as nat, total as nat, limit);
            }
        }
        let split = self.empty_split();
        let start = self.insts.len();
        match self.c(hir) {
            Err(e) => {
                return Err(e);
            },
            Ok(()) => {},
        }
        let ghost mid = self.insts@;
        match self.c_optional_copies(hir, k - 1) {
            Err(e) => {
                return Err(e);
            },
            Ok(()) => {},
        }
        let end = self.insts.len();
        self.set_split(split, start, end);
        proof {
            assert(self.insts@ =~= l0 + opt_prog(*hir, k as nat, pc));
        }
        Ok(())
    }

    /// Appends the program of `hir` repeated any number of times: a `Split`
    /// between the body and the exit, and a `Jump` back after the body.
    fn c_star(&mut self, hir: &Hir) -> (r: Result<(), Error>)
        requires
            old(self).wf(),
        ensures
            final(self).wf(),
            final(self).size_limit == old(self).size_limit,
            r is Ok ==> final(self).insts@ == old(self).insts@ + star_prog(*hir, old(self).insts@.len() as int) && !(unsupported(*hir)),
            (!(unsupported(*hir)) && fits(old(self).insts@.len() + star_prog(*hir, old(self).insts@.len() as int).len(), old(self).size_limit)) ==> r is Ok,
            match r {
                Err(e) => err_ok(e, rejected(*hir, e), old(self).insts@.len() + star_prog(*hir, old(self).insts@.len() as int).len(), old(self).size_limit),
                Ok(_) => true,
            },
            reports(r, error_of(*hir, old(self).insts@.len() as int + 1, old(self).size_limit)),
        decreases hir, 1nat, 0nat,
    {
        let ghost pc = self.insts@.len() as int;
        let ghost l0 = self.insts@;
        let ghost limit = self.size_limit;
        let ghost total = pc + star_prog(*hir, pc).len();
        proof {
            if fits((total) as nat, limit) {
                lemma_fits_mono((pc + 1 + prog(*hir, pc + 1).len()) as nat, total as nat, limit);
            }
        }
        let j1 = self.insts.len();
        let split = self.empty_split();
        let j2 = self.insts.len();
        match self.c(hir) {
            Err(e) => {
                return Err(e);
            },
            Ok(()) => {},
        }
        let jmp = self.empty_jump();
        let j3 = self.insts.len();
        self.set_jump(jmp, j1);
        self.set_split(split, j2, j3);
        proof {
            assert(self.insts@ =~= l0 + star_prog(*hir, pc));
        }
        Ok(())
    }

    /// Appends the program of a greedy repetition of `hir`.
    fn c_repetition(&mut self, kind: RepetitionKind, hir: &Hir) -> (r: Result<(), Error>)
        requires
            old(self).wf(),
        ensures
            final(self).wf(),
            final(self).size_limit == old(self).size_limit,
            r is Ok ==> final(self).insts@ == old(self).insts@ + rep_prog(kind, *hir, old(self).insts@.len() as int) && !(compiles_body(kind) && unsupported(*hir)),
            (!(compiles_body(kind) && unsupported(*hir)) && fits(old(self).insts@.len() + rep_prog(kind, *hir, old(self).insts@.len() as int).len(), old(self).size_limit)) ==> r is Ok,
            match r {
                Err(e) => err_ok(e, compiles_body(kind) && rejected(*hir, e), old(self).insts@.len() + rep_prog(kind, *hir, old(self).insts@.len() as int).len(), old(self).size_limit),
                Ok(_) => true,
            },
            reports(r, rep_error(kind, *hir, old(self).insts@.len() as int, old(self).size_limit)),
        decreases hir, 2nat, 0nat,
    {
        let ghost pc = self.insts@.len() as int;
        let ghost l0 = self.insts@;
        let ghost limit = self.size_limit;
        let ghost total = pc + rep_prog(kind, *hir, pc).len();
        match kind {
            RepetitionKind::ZeroOrOne => {
                let split = self.empty_split();
                let j1 = self.insts.len();
                match self.c(hir) {
                    Err(e) => {
                        return Err(e);
                    },
                    Ok(()) => {},
                }
                let j2 = self.insts.len();
                self.set_split(split, j1, j2);
                proof {
                    assert(self.insts@ =~= l0 + rep_prog(kind, *hir, pc));
                }
                Ok(())
            },
            RepetitionKind::ZeroOrMore => self.c_star(hir),
            RepetitionKind::OneOrMore => {
                let j1 = self.insts.len();
                proof {
                    if fits(total as nat, limit) {
                        lemma_fits_mono((pc + prog(*hir, pc).len()) as nat, total as nat, limit);
                    }
                }
                match self.c(hir) {
                    Err(e) => {
                        return Err(e);
                    },
                    Ok(()) => {},
                }
                let split = self.empty_split();
                let j2 = self.insts.len();
                self.set_split(split, j1, j2);
                proof {
                    assert(self.insts@ =~= l0 + rep_prog(kind, *hir, pc));
                }
                Ok(())
            },
            RepetitionKind::Range(RepetitionRange::Exactly(m)) => self.c_times(hir, m),
            RepetitionKind::Range(RepetitionRange::AtLeast(m)) => {
                proof {
                    if fits(total as nat, limit) {
                        lemma_fits_mono(
                            (pc + times_prog(*hir, m as nat, pc).len()) as nat,
                            total as nat,
                            limit,
                        );
                    }
                }
                match self.c_times(hir, m) {
                    Err(e) => {
                        return Err(e);
                    },
                    Ok(()) => {},
                }
                let r = self.c_star(hir);
                proof {
                    if r is Ok {
                        assert(self.insts@ =~= l0 + rep_prog(kind, *hir, pc));
                    }
                }
                r
            },
            RepetitionKind::Range(RepetitionRange::Bounded(m, n)) => {
                proof {
                    if fits(total as nat, limit) {
                        lemma_fits_mono(
                            (pc + times_prog(*hir, m as nat, pc).len()) as nat,
                            total as nat,
                            limit,
                        );
                    }
                }
                match self.c_times(hir, m) {
                    Err(e) => {
                        return Err(e);
                    },
                    Ok(()) => {},
                }
                if n > m {
                    let r = self.c_optional_copies(hir, n - m);
                    proof {
                        if r is Ok {
                            assert(self.insts@ =~= l0 + rep_prog(kind, *hir, pc));
                        }
                    }
                    r
                } else {
                    proof {
                        assert(self.insts@ =~= l0 + rep_prog(kind, *hir, pc));
                    }
                    Ok(())
                }
            },
        }
    }

    /// Appends the program of `hir` and checks the size limit.
    fn c(&mut self, hir: &Hir) -> (r: Result<(), Error>)
        requires
            old(self).wf(),
        ensures
            final(self).wf(),
            final(self).size_limit == old(self).size_limit,
            r is Ok ==> final(self).insts@ == old(self).insts@ + prog(*hir, old(self).insts@.len() as int) && !unsupported(*hir)
                && fits(old(self).insts@.len() + prog(*hir, old(self).insts@.len() as int).len(), old(self).size_limit),
            (!unsupported(*hir) && fits(
                old(self).insts@.len() + prog(*hir, old(self).insts@.len() as int).len(),
                old(self).size_limit,
            )) ==> r is Ok,
            match r {
                Err(e) => err_ok(
                    e,
                    rejected(*hir, e),
                    old(self).insts@.len() + prog(*hir, old(self).insts@.len() as int).len(),
                    old(self).size_limit,
                ),
                Ok(_) => true,
            },
            reports(r, error_of(*hir, old(self).insts@.len() as int, old(self).size_limit)),
        decreases hir, 0nat, 0nat,
    {
        let ghost l0 = self.insts@;
        let res = match hir {
            Hir::Anchor => Err(Error::NoEmpty),
            Hir::WordBoundary => Err(Error::NoWordBoundary),
            Hir::Literal(Literal::Byte(_)) => Err(Error::NoBytes),
            Hir::Literal(Literal::Unicode(ch)) => {
                self.compile_literal(*ch);
                Ok(())
            },
            Hir::Class(Class::Bytes) => Err(Error::NoBytes),
            Hir::Class(Class::Unicode(ranges)) => {
                self.compile_class(ranges);
                Ok(())
            },
            Hir::Empty => {
                proof {
                    assert(self.insts@ =~= l0 + prog(*hir, l0.len() as int));
                }
                Ok(())
            },
            Hir::Group(inner) => self.c(inner),
            Hir::Concat(hirs) => {
                proof {
                    assert(hirs@.subrange(0, hirs@.len() as int) =~= hirs@);
                }
                self.c_concat_from(hirs, 0)
            },
            Hir::Alternation(hirs) => {
                proof {
                    assert(hirs@.subrange(0, hirs@.len() as int) =~= hirs@);
                }
                if hirs.len() == 0 {
                    proof {
                        assert(alt_prog(hirs@, l0.len() as int) =~= Seq::<Inst>::empty());
                        assert(!list_unsupported(hirs@));
                        assert(self.insts@ =~= l0 + prog(*hir, l0.len() as int));
                    }
                    Ok(())
                } else {
                    self.c_alt_from(hirs, 0)
                }
            },
            Hir::Repetition { kind, greedy, hir: body } => {
                if !*greedy {
                    Err(Error::NoLazy)
                } else {
                    self.c_repetition(*kind, body)
                }
            },
        };
        match res {
            Err(e) => {
                return Err(e);
            },
            Ok(()) => {},
        }
        proof {
            assert(node_error(*hir, l0.len() as int, self.size_limit) is None);
        }
        self.check_size()
    }

    /// Compiles `hir` to its program followed by `Match`.
    pub fn compile(self, hir: &Hir) -> (r: Result<Vec<Inst>, Error>)
        requires
            self.wf(),
            self.spec_insts().len() == 0,
        ensures
            r is Ok <==> (!unsupported(*hir) && fits(prog(*hir, 0).len(), self.spec_limit())),
            match r {
                Ok(p) => p@ == prog(*hir, 0).push(Inst::Match) && error_of(*hir, 0, self.spec_limit()) is None,
                Err(e) => err_ok(e, rejected(*hir, e), prog(*hir, 0).len(), self.spec_limit()) && error_of(
                    *hir,
                    0,
                    self.spec_limit(),
                ) == Some(e),
            },
    {
        let mut compiler = self;
        proof {
            assert(compiler.insts@ =~= Seq::<Inst>::empty());
        }
        match compiler.c(hir) {
            Err(e) => {
                return Err(e);
            },
            Ok(()) => {},
        }
        compiler.insts.push(Inst::Match);
        proof {
            assert(compiler.insts@ =~= prog(*hir, 0).push(Inst::Match));
        }
        Ok(compiler.insts)
    }
}

} // verus!
