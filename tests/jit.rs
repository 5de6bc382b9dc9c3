use bfjit::compile::{compile, OpCode};
use bfjit::jit::{code_offsets, emit, jit, EmitError};

const PROLOGUE: [u8; 4] = [0x53, 0x48, 0x31, 0xdb];
const EPILOGUE: [u8; 2] = [0x5b, 0xc3];

#[test]
fn emits_prologue_and_epilogue_only_for_empty_program() {
    let code = jit(&[]).unwrap();
    let mut expected = PROLOGUE.to_vec();
    expected.extend(EPILOGUE);
    assert_eq!(code, expected);
}

#[test]
fn emits_arithmetic_and_moves() {
    let ops = vec![
        OpCode::Right { count: 0x0102_0304 },
        OpCode::Left { count: 1 },
        OpCode::Inc { count: 7, offset: -1 },
        OpCode::Dec { count: 9, offset: 2 },
        OpCode::SetZero,
        OpCode::Mul { factor: 3, offset: 1 },
    ];
    let code = jit(&ops).unwrap();
    let mut expected = PROLOGUE.to_vec();
    expected.extend([0x81, 0xc3, 0x04, 0x03, 0x02, 0x01]);
    expected.extend([0x81, 0xeb, 0x01, 0x00, 0x00, 0x00]);
    expected.extend([0x80, 0x84, 0x1f, 0xff, 0xff, 0xff, 0xff, 0x07]);
    expected.extend([0x80, 0xac, 0x1f, 0x02, 0x00, 0x00, 0x00, 0x09]);
    expected.extend([0xc6, 0x04, 0x1f, 0x00]);
    expected.extend([
        0x48, 0x0f, 0xb6, 0x04, 0x1f, 0x48, 0x6b, 0xc0, 0x03, 0x00, 0x84, 0x1f, 0x01, 0x00, 0x00,
        0x00, 0xc6, 0x04, 0x1f, 0x00,
    ]);
    expected.extend(EPILOGUE);
    assert_eq!(code, expected);
}

#[test]
fn emits_io_calls() {
    let code = jit(&[OpCode::Output, OpCode::Input]).unwrap();
    assert_eq!(code.len(), 4 + 33 + 29 + 2);
    assert_eq!(&code[4 + 21..4 + 23], &[0xff, 0xd2]);
    assert_eq!(&code[4 + 33 + 13..4 + 33 + 16], &[0x41, 0xff, 0xd0]);
    assert_eq!(&code[4 + 33 + 26..4 + 33 + 29], &[0x88, 0x04, 0x1f]);
}

#[test]
fn patches_loop_jumps() {
    let ops = compile(b"[.]");
    let code = jit(&ops).unwrap();
    // jz at 4..15, output at 15..48, jnz at 48..59, epilogue at 59
    assert_eq!(code.len(), 61);
    assert_eq!(&code[4..11], &[0x8a, 0x04, 0x1f, 0x3c, 0x00, 0x0f, 0x84]);
    assert_eq!(&code[11..15], &44u32.to_le_bytes());
    assert_eq!(&code[48..55], &[0x8a, 0x04, 0x1f, 0x3c, 0x00, 0x0f, 0x85]);
    assert_eq!(&code[55..59], &(-44i32).to_le_bytes());
    assert_eq!(&code[59..], &EPILOGUE);
}

#[test]
fn reports_unmatched_close() {
    let ops = compile(b"+]");
    assert_eq!(jit(&ops), Err(EmitError::UnmatchedClose { index: 1 }));
}

#[test]
fn offsets_follow_op_sizes() {
    let ops = vec![OpCode::Output, OpCode::SetZero, OpCode::Right { count: 1 }];
    let offs = code_offsets(&ops).unwrap();
    assert_eq!(offs, vec![4, 37, 41, 47]);
    let code = emit(&ops, &offs);
    assert_eq!(code.len(), 49);
}

#[test]
fn reports_unmatched_open() {
    let ops = compile(b"[.");
    assert_eq!(jit(&ops), Err(EmitError::UnmatchedOpen { index: 0 }));
}

#[test]
fn code_does_not_depend_on_input_targets() {
    let a = vec![
        OpCode::JumpIfZero { target: 0 },
        OpCode::Output,
        OpCode::JumpIfNotZero { target: 0 },
    ];
    let b = vec![
        OpCode::JumpIfZero { target: 9 },
        OpCode::Output,
        OpCode::JumpIfNotZero { target: 1 },
    ];
    assert_eq!(jit(&a).unwrap(), jit(&b).unwrap());
}
