use bfjit::compile::{compile, OpCode};
use bfjit::interpret::{back_patch, BracketError, Interpreter, Stop};
use bfjit::{Printer, Scanner};

fn run_program(code: &[u8], input: &[u8]) -> (Stop, Vec<u8>, Vec<u8>) {
    let mut ops = compile(code);
    let mut cells = vec![0u8; 30000];
    let mut printer = Printer::new();
    let mut scanner = Scanner::new();
    for b in input {
        scanner.buffer.push(*b);
    }
    let (_, stop) = Interpreter::exec(&mut ops, &mut cells, &mut printer, &mut scanner, 1_000_000)
        .unwrap();
    (stop, printer.take(), cells)
}

#[test]
fn code_interpret() {
    let code = b",++++++++++.";
    let mut ops = compile(code);

    let mut printer = Printer::new();
    let mut scanner = Scanner::new();
    scanner.buffer.push(12);
    let mut cells = vec![0u8; 30000];

    let (_, stop) =
        Interpreter::exec(&mut ops, &mut cells, &mut printer, &mut scanner, 1000).unwrap();
    assert_eq!(stop, Stop::Halted);
    assert_eq!(printer.bytes, vec![22]);
}

#[test]
fn scenario_prints_capital_a() {
    let (stop, out, _) = run_program(b"++++++++[>++++++++<-]>+.", b"");
    assert_eq!(stop, Stop::Halted);
    assert_eq!(out, b"A".to_vec());
}

#[test]
fn scenario_increments_input() {
    let (stop, out, _) = run_program(b",+.", b"A");
    assert_eq!(stop, Stop::Halted);
    assert_eq!(out, b"B".to_vec());
}

#[test]
fn scenario_echoes_three_bytes() {
    let (_, out, _) = run_program(b",.,.,.", b"xyz");
    assert_eq!(out, b"xyz".to_vec());
}

#[test]
fn scenario_mul_moves_cell() {
    let mut ops = vec![OpCode::Mul { factor: 1, offset: 1 }];
    let mut cells = vec![3u8, 0, 0];
    let mut printer = Printer::new();
    let mut scanner = Scanner::new();
    let (_, stop) =
        Interpreter::exec(&mut ops, &mut cells, &mut printer, &mut scanner, 10).unwrap();
    assert_eq!(stop, Stop::Halted);
    assert_eq!(cells[1], 3);
    assert_eq!(cells[0], 0);
}

#[test]
fn scenario_echoes_line_until_nul() {
    let mut ops = compile(b",[.,]");
    let mut cells = vec![0u8; 100];
    let mut printer = Printer::new();
    let mut scanner = Scanner::new();
    scanner.refill(b"hi\n");
    let (_, stop) =
        Interpreter::exec(&mut ops, &mut cells, &mut printer, &mut scanner, 1000).unwrap();
    assert_eq!(stop, Stop::Halted);
    assert_eq!(printer.take(), b"hi\n".to_vec());
}

#[test]
fn scenario_adds_two_cells() {
    let (stop, out, _) = run_program(b"++>+++<[->+<]>.", b"");
    assert_eq!(stop, Stop::Halted);
    assert_eq!(out, vec![5]);
}

#[test]
fn cell_wraps_after_256_increments() {
    let code = vec![b'+'; 256];
    let (stop, _, cells) = run_program(&code, b"");
    assert_eq!(stop, Stop::Halted);
    assert_eq!(cells[0], 0);
}

#[test]
fn decrement_wraps_below_zero() {
    let (_, out, _) = run_program(b"-.", b"");
    assert_eq!(out, vec![255]);
}

#[test]
fn clear_loop_matches_set_zero() {
    let (_, a, _) = run_program(b"+++++[-].+++[+].", b"");
    let mut ops = vec![
        OpCode::Inc { count: 5, offset: 0 },
        OpCode::SetZero,
        OpCode::Output,
        OpCode::Inc { count: 3, offset: 0 },
        OpCode::SetZero,
        OpCode::Output,
    ];
    let mut cells = vec![0u8; 10];
    let mut printer = Printer::new();
    let mut scanner = Scanner::new();
    Interpreter::exec(&mut ops, &mut cells, &mut printer, &mut scanner, 100).unwrap();
    assert_eq!(a, printer.take());
    assert_eq!(a, vec![0, 0]);
}

#[test]
fn waits_for_input_and_resumes() {
    let mut ops = compile(b",.");
    back_patch(&mut ops).unwrap();
    let mut cells = vec![0u8; 4];
    let mut printer = Printer::new();
    let mut scanner = Scanner::new();
    let mut it = Interpreter::new();
    let stop = it.run(&ops, &mut cells, &mut printer, &mut scanner, 100);
    assert_eq!(stop, Stop::NeedInput);
    assert_eq!(it.ip, 0);
    scanner.refill(b"q");
    let stop = it.run(&ops, &mut cells, &mut printer, &mut scanner, 100);
    assert_eq!(stop, Stop::Halted);
    assert_eq!(printer.take(), b"q".to_vec());
    assert_eq!(scanner.buffer, vec![0]);
}

#[test]
fn moving_off_the_tape_stops() {
    let (stop, _, _) = run_program(b"+<+", b"");
    assert_eq!(stop, Stop::OutOfBounds);
    let mut ops = compile(b">>>>+");
    let mut cells = vec![0u8; 3];
    let mut printer = Printer::new();
    let mut scanner = Scanner::new();
    let (it, stop) =
        Interpreter::exec(&mut ops, &mut cells, &mut printer, &mut scanner, 100).unwrap();
    assert_eq!(stop, Stop::OutOfBounds);
    assert_eq!(it.ip, 0);
}

#[test]
fn fuel_runs_out_on_endless_loop() {
    let (stop, _, _) = run_program(b"+[]", b"");
    assert_eq!(stop, Stop::OutOfFuel);
}

#[test]
fn back_patch_pairs_brackets() {
    let mut ops = compile(b"[.[.].]");
    back_patch(&mut ops).unwrap();
    assert_eq!(ops[0], OpCode::JumpIfZero { target: 7 });
    assert_eq!(ops[6], OpCode::JumpIfNotZero { target: 1 });
    assert_eq!(ops[2], OpCode::JumpIfZero { target: 5 });
    assert_eq!(ops[4], OpCode::JumpIfNotZero { target: 3 });
    for (i, op) in ops.iter().enumerate() {
        match op {
            OpCode::JumpIfZero { target } | OpCode::JumpIfNotZero { target } => {
                let partner = ops[target - 1];
                match partner {
                    OpCode::JumpIfZero { target: t } | OpCode::JumpIfNotZero { target: t } => {
                        assert_eq!(t, i + 1)
                    }
                    _ => panic!("partner is no jump"),
                }
            }
            _ => {}
        }
    }
}

#[test]
fn back_patch_reports_unmatched_close() {
    let mut ops = compile(b"[.]].[");
    let r = back_patch(&mut ops);
    assert_eq!(r, Err(BracketError::UnmatchedClose { index: 3 }));
    assert_eq!(ops[0], OpCode::JumpIfZero { target: 3 });
    assert_eq!(ops[3], OpCode::JumpIfNotZero { target: 0 });
}

#[test]
fn mul_wraps_product() {
    let mut ops = vec![OpCode::Mul { factor: 200, offset: -1 }];
    let mut cells = vec![10u8, 3, 0];
    let mut printer = Printer::new();
    let mut scanner = Scanner::new();
    let mut it = Interpreter::new();
    it.cell = 1;
    back_patch(&mut ops).unwrap();
    let stop = it.run(&ops, &mut cells, &mut printer, &mut scanner, 10);
    assert_eq!(stop, Stop::Halted);
    assert_eq!(cells, vec![((10u32 + 600) % 256) as u8, 0, 0]);
}

#[test]
fn back_patch_reports_outermost_unclosed_open() {
    let mut ops = compile(b"[.[.].[.]");
    let r = back_patch(&mut ops);
    assert_eq!(r, Err(BracketError::UnmatchedOpen { index: 0 }));
    assert_eq!(ops[2], OpCode::JumpIfZero { target: 5 });
    assert_eq!(ops[4], OpCode::JumpIfNotZero { target: 3 });
    let mut ops = compile(b"[.][.");
    assert_eq!(back_patch(&mut ops), Err(BracketError::UnmatchedOpen { index: 3 }));
}

#[test]
fn exec_refuses_unclosed_open() {
    let mut ops = compile(b"+[.");
    let mut cells = vec![0u8; 4];
    let mut printer = Printer::new();
    let mut scanner = Scanner::new();
    let r = Interpreter::exec(&mut ops, &mut cells, &mut printer, &mut scanner, 100);
    assert_eq!(r.err(), Some(BracketError::UnmatchedOpen { index: 1 }));
    assert_eq!(cells, vec![0u8; 4]);
}
