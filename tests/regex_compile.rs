use airmail_fst::regex::{
    Class, ClassUnicodeRange, Compiler, Error, Hir, Inst, Literal, RepetitionKind, RepetitionRange,
};

const LIMIT: usize = 1 << 20;

/// Runs a program over `input` as a set of threads, one byte at a time.
fn accepts(prog: &[Inst], input: &[u8]) -> bool {
    fn add(prog: &[Inst], pc: usize, set: &mut Vec<usize>) {
        if set.contains(&pc) {
            return;
        }
        set.push(pc);
        match prog[pc] {
            Inst::Jump(t) => add(prog, t, set),
            Inst::Split(x, y) => {
                add(prog, x, set);
                add(prog, y, set);
            }
            _ => {}
        }
    }
    let mut cur = Vec::new();
    add(prog, 0, &mut cur);
    for &b in input {
        let mut next = Vec::new();
        for &pc in &cur {
            if let Inst::Range(lo, hi) = prog[pc] {
                if lo <= b && b <= hi {
                    add(prog, pc + 1, &mut next);
                }
            }
        }
        cur = next;
    }
    cur.iter().any(|&pc| prog[pc] == Inst::Match)
}

fn lit(c: char) -> Hir {
    Hir::Literal(Literal::Unicode(c))
}

fn rep(kind: RepetitionKind, hir: Hir) -> Hir {
    Hir::Repetition { kind, greedy: true, hir: Box::new(hir) }
}

fn compile(hir: &Hir) -> Vec<Inst> {
    Compiler::new(LIMIT).compile(hir).unwrap()
}

#[test]
fn alternation_accepts_each_branch() {
    let prog = compile(&Hir::Alternation(vec![lit('a'), lit('b')]));
    assert!(accepts(&prog, b"a"));
    assert!(accepts(&prog, b"b"));
    assert!(!accepts(&prog, b"c"));
    assert!(!accepts(&prog, b""));
    assert_eq!(prog, vec![Inst::Split(1, 3), Inst::Range(b'a', b'a'), Inst::Jump(4), Inst::Range(b'b', b'b'), Inst::Match]);
}

#[test]
fn optional_suffix() {
    let prog = compile(&Hir::Concat(vec![lit('a'), rep(RepetitionKind::ZeroOrOne, lit('b'))]));
    assert!(accepts(&prog, b"a"));
    assert!(accepts(&prog, b"ab"));
    assert!(!accepts(&prog, b"abb"));
    assert!(!accepts(&prog, b"b"));
}

#[test]
fn bounded_repetition() {
    let prog = compile(&rep(RepetitionKind::Range(RepetitionRange::Bounded(2, 4)), lit('a')));
    assert!(!accepts(&prog, b""));
    assert!(!accepts(&prog, b"a"));
    assert!(accepts(&prog, b"aa"));
    assert!(accepts(&prog, b"aaa"));
    assert!(accepts(&prog, b"aaaa"));
    assert!(!accepts(&prog, b"aaaaa"));
    // 2 copies, then 2 optional copies of Split + Range, then Match.
    assert_eq!(prog.len(), 2 + 2 * 2 + 1);
}

#[test]
fn exact_repetition() {
    let prog = compile(&rep(RepetitionKind::Range(RepetitionRange::Exactly(3)), lit('a')));
    assert!(accepts(&prog, b"aaa"));
    assert!(!accepts(&prog, b"aa"));
    assert!(!accepts(&prog, b"aaaa"));
}

#[test]
fn at_least_repetition() {
    let prog = compile(&rep(RepetitionKind::Range(RepetitionRange::AtLeast(2)), lit('a')));
    assert!(!accepts(&prog, b"a"));
    assert!(accepts(&prog, b"aa"));
    assert!(accepts(&prog, b"aaaaaaa"));
}

#[test]
fn star_and_plus() {
    let star = compile(&rep(RepetitionKind::ZeroOrMore, lit('a')));
    assert!(accepts(&star, b""));
    assert!(accepts(&star, b"aaaa"));
    assert!(!accepts(&star, b"ab"));
    assert_eq!(star, vec![Inst::Split(1, 3), Inst::Range(b'a', b'a'), Inst::Jump(0), Inst::Match]);
    let plus = compile(&rep(RepetitionKind::OneOrMore, lit('a')));
    assert!(!accepts(&plus, b""));
    assert!(accepts(&plus, b"a"));
    assert!(accepts(&plus, b"aaa"));
}

#[test]
fn word_boundary_is_rejected() {
    let hir = Hir::Concat(vec![Hir::WordBoundary, lit('a')]);
    assert_eq!(Compiler::new(LIMIT).compile(&hir), Err(Error::NoWordBoundary));
}

#[test]
fn anchor_is_rejected() {
    assert_eq!(Compiler::new(LIMIT).compile(&Hir::Anchor), Err(Error::NoEmpty));
}

#[test]
fn bytes_are_rejected() {
    assert_eq!(Compiler::new(LIMIT).compile(&Hir::Literal(Literal::Byte(0xff))), Err(Error::NoBytes));
    assert_eq!(Compiler::new(LIMIT).compile(&Hir::Class(Class::Bytes)), Err(Error::NoBytes));
}

#[test]
fn lazy_repetition_is_rejected() {
    let hir = Hir::Repetition { kind: RepetitionKind::ZeroOrMore, greedy: false, hir: Box::new(lit('a')) };
    assert_eq!(Compiler::new(LIMIT).compile(&hir), Err(Error::NoLazy));
}

#[test]
fn size_limit_is_enforced() {
    let hir = Hir::Concat(vec![lit('a'), lit('b'), lit('c')]);
    let size = std::mem::size_of::<Inst>();
    assert_eq!(Compiler::new(2 * size).compile(&hir), Err(Error::CompiledTooBig(2 * size)));
    let prog = Compiler::new(3 * size).compile(&hir).unwrap();
    assert_eq!(prog.len(), 4);
    assert!(accepts(&prog, b"abc"));
}

#[test]
fn class_across_utf8_lengths_has_several_branches() {
    let class = Hir::Class(Class::Unicode(vec![ClassUnicodeRange { start: 'a', end: '\u{e9}' }]));
    let prog = compile(&class);
    let splits = prog.iter().filter(|i| matches!(i, Inst::Split(_, _))).count();
    assert!(splits >= 1);
    assert!(accepts(&prog, b"a"));
    assert!(accepts(&prog, "\u{e9}".as_bytes()));
    assert!(accepts(&prog, "\u{80}".as_bytes()));
    assert!(!accepts(&prog, b"A"));
}

#[test]
fn class_with_several_ranges() {
    let class = Hir::Class(Class::Unicode(vec![
        ClassUnicodeRange { start: 'a', end: 'c' },
        ClassUnicodeRange { start: 'x', end: 'z' },
    ]));
    let prog = compile(&class);
    assert_eq!(prog, vec![Inst::Split(1, 3), Inst::Range(b'a', b'c'), Inst::Jump(4), Inst::Range(b'x', b'z'), Inst::Match]);
    assert!(accepts(&prog, b"b"));
    assert!(accepts(&prog, b"y"));
    assert!(!accepts(&prog, b"m"));
}

#[test]
fn multibyte_literal() {
    let prog = compile(&lit('\u{20ac}'));
    assert_eq!(prog.len(), 4);
    assert!(accepts(&prog, "\u{20ac}".as_bytes()));
    assert!(!accepts(&prog, "\u{20ad}".as_bytes()));
}

#[test]
fn empty_and_group() {
    let prog = compile(&Hir::Empty);
    assert_eq!(prog, vec![Inst::Match]);
    assert!(accepts(&prog, b""));
    let prog = compile(&Hir::Group(Box::new(lit('z'))));
    assert!(accepts(&prog, b"z"));
    let prog = compile(&Hir::Alternation(vec![]));
    assert_eq!(prog, vec![Inst::Match]);
}

#[test]
fn alternatives_of_byte_sequences() {
    let mut c = Compiler::new(LIMIT);
    c.compile_alternatives(&vec![vec![(0x61, 0x7a)], vec![(0xc2, 0xdf), (0x80, 0xbf)]]);
    assert_eq!(
        c.program(),
        &vec![
            Inst::Split(1, 3),
            Inst::Range(0x61, 0x7a),
            Inst::Jump(5),
            Inst::Range(0xc2, 0xdf),
            Inst::Range(0x80, 0xbf),
        ]
    );
    let mut d = Compiler::new(LIMIT);
    d.compile_alternatives(&vec![]);
    assert!(d.program().is_empty());
}

#[test]
fn class_across_utf8_lengths_exact_program() {
    let class = Hir::Class(Class::Unicode(vec![ClassUnicodeRange { start: 'a', end: '\u{e9}' }]));
    let prog = compile(&class);
    assert_eq!(
        prog,
        vec![
            Inst::Split(1, 3),
            Inst::Range(0x61, 0x7f),
            Inst::Jump(9),
            Inst::Split(4, 7),
            Inst::Range(0xc2, 0xc2),
            Inst::Range(0x80, 0xbf),
            Inst::Jump(9),
            Inst::Range(0xc3, 0xc3),
            Inst::Range(0x80, 0xa9),
            Inst::Match,
        ]
    );
}

#[test]
fn first_rejected_construct_is_reported() {
    let hir = Hir::Concat(vec![Hir::WordBoundary, Hir::Anchor]);
    assert_eq!(Compiler::new(LIMIT).compile(&hir), Err(Error::NoWordBoundary));
    let hir = Hir::Concat(vec![Hir::Anchor, Hir::WordBoundary]);
    assert_eq!(Compiler::new(LIMIT).compile(&hir), Err(Error::NoEmpty));
    let hir = Hir::Alternation(vec![lit('a'), Hir::Literal(Literal::Byte(1)), Hir::WordBoundary]);
    assert_eq!(Compiler::new(LIMIT).compile(&hir), Err(Error::NoBytes));
}

#[test]
fn size_error_before_later_rejection() {
    let hir = Hir::Concat(vec![lit('a'), lit('b'), Hir::WordBoundary]);
    let size = std::mem::size_of::<Inst>();
    // The second literal's size check fails before the word boundary is met.
    assert_eq!(Compiler::new(size).compile(&hir), Err(Error::CompiledTooBig(size)));
    assert_eq!(Compiler::new(LIMIT).compile(&hir), Err(Error::NoWordBoundary));
}

#[test]
fn bounded_repetition_layout() {
    let prog = compile(&rep(RepetitionKind::Range(RepetitionRange::Bounded(1, 3)), lit('a')));
    assert_eq!(
        prog,
        vec![
            Inst::Range(b'a', b'a'),
            Inst::Split(2, 5),
            Inst::Range(b'a', b'a'),
            Inst::Split(4, 5),
            Inst::Range(b'a', b'a'),
            Inst::Match,
        ]
    );
}

#[test]
fn larger_limit_same_program() {
    let hir = Hir::Alternation(vec![lit('a'), rep(RepetitionKind::OneOrMore, lit('b'))]);
    let small = Compiler::new(64 * std::mem::size_of::<Inst>()).compile(&hir).unwrap();
    let large = Compiler::new(LIMIT).compile(&hir).unwrap();
    assert_eq!(small, large);
}
