use bfjit::compile::OpCode as Op;
use bfjit::meassure::Measured;
use bfjit::scanner::{BfCompiler, OpCode};
use bfjit::{Printer, Scanner};

#[test]
fn printer_collects_and_hands_over() {
    let mut p = Printer::new();
    p.print(1);
    p.print(2);
    assert_eq!(p.take(), vec![1, 2]);
    assert!(p.bytes.is_empty());
}

#[test]
fn scanner_appends_nul_after_each_line() {
    let mut s = Scanner::new();
    assert_eq!(s.scan(), None);
    s.refill(b"ab");
    assert_eq!(s.scan(), Some(b'a'));
    assert_eq!(s.scan(), Some(b'b'));
    assert_eq!(s.scan(), Some(0));
    assert_eq!(s.scan(), None);
}

#[test]
fn measured_keeps_order_and_value() {
    let mut a: Measured<Vec<Op>> = Measured::new();
    a.record("compiling".to_string(), 5);
    a.set(vec![Op::SetZero]);
    assert_eq!(a.data(), vec![Op::SetZero]);
    let mut b: Measured<u8> = Measured::new();
    b.record("running".to_string(), 7);
    b.set(9);
    let mut c = a.append(b);
    assert_eq!(c.measurements, vec![("compiling".to_string(), 5), ("running".to_string(), 7)]);
    assert_eq!(c.data(), 9);
}

#[test]
fn tokenizer_yields_runs() {
    let mut t = BfCompiler::new(b"x++ +>>[-]");
    assert_eq!(t.next(), Some(OpCode::Inc { count: 3 }));
    assert_eq!(t.next(), Some(OpCode::Right { count: 2 }));
    assert_eq!(t.next(), Some(OpCode::JumpIfZero { target: 0 }));
    assert_eq!(t.next(), Some(OpCode::Dec { count: 1 }));
    assert_eq!(t.next(), Some(OpCode::JumpIfNotZero { target: 0 }));
    assert_eq!(t.next(), None);
}

#[test]
fn tokenizer_caps_counts() {
    let code = vec![b'<'; 260];
    let mut t = BfCompiler::new(&code);
    assert_eq!(t.next(), Some(OpCode::Left { count: 255 }));
    assert_eq!(t.next(), Some(OpCode::Left { count: 5 }));
    assert_eq!(t.next(), None);
}

#[test]
fn tokenizer_folds_runs_across_comments() {
    let mut t = BfCompiler::new(b"+ +\n- x -< <");
    assert_eq!(t.next(), Some(OpCode::Inc { count: 2 }));
    assert_eq!(t.next(), Some(OpCode::Dec { count: 2 }));
    assert_eq!(t.next(), Some(OpCode::Left { count: 2 }));
    assert_eq!(t.next(), None);
}

#[test]
fn tokenizer_leaves_no_adjacent_runs() {
    let mut t = BfCompiler::new(b"++ a ++--<<x>><<+ -[>>]..,,");
    let mut ops = Vec::new();
    while let Some(op) = t.next() {
        ops.push(op);
    }
    for w in ops.windows(2) {
        let same = matches!(
            (w[0], w[1]),
            (OpCode::Inc { .. }, OpCode::Inc { .. })
                | (OpCode::Dec { .. }, OpCode::Dec { .. })
                | (OpCode::Left { .. }, OpCode::Left { .. })
                | (OpCode::Right { .. }, OpCode::Right { .. })
        );
        assert!(!same);
    }
    assert_eq!(ops.len(), 14);
}
