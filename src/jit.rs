//! x86-64 (System V) machine code for an op stream.
//!
//! The emitted function takes the tape base in `rdi`, the printer object and
//! function in `rsi` and `rdx`, the scanner object and function in `rcx` and
//! `r8`, and keeps the cursor in `rbx`.
use vstd::prelude::*;

use crate::compile::OpCode;
use crate::interpret::{
    back_patch, back_patched, brackets_paired, closed_before, depth, first_unmatched_close,
    is_close, is_open, is_pair, lemma_back_patched_unique, outer_unclosed_open, BracketError,
};

verus! {

/// Why no code was emitted.
#[derive(Debug, Clone, Copy, PartialEq, Eq, Structural)]
pub enum EmitError {
    /// A `]` with no `[` open before it, at this op index.
    UnmatchedClose { index: usize },
    /// The outermost `[` that no `]` closes, at this op index.
    UnmatchedOpen { index: usize },
    /// The code would not fit the reach of a 32-bit relative jump.
    TooLarge,
}

/// The largest code size that every rel32 jump within it can span.
pub const CODE_LIMIT: usize = 0x7fff_ffff;

/// The four little-endian bytes of `v` taken modulo 2^32.
pub open spec fn le32(v: int) -> Seq<u8> {
    let u = v % 0x1_0000_0000;
    seq![(u % 256) as u8, ((u / 256) % 256) as u8, ((u / 65536) % 256) as u8, ((u / 16777216) % 256) as u8]
}

/// `push rbx; xor rbx, rbx`
pub open spec fn prologue() -> Seq<u8> {
    seq![0x53u8, 0x48, 0x31, 0xdb]
}

/// `pop rbx; ret`
pub open spec fn epilogue() -> Seq<u8> {
    seq![0x5bu8, 0xc3]
}

/// `mov al, [rdi+rbx]; cmp al, 0` followed by the opcode of `jz` or `jnz` (rel32).
pub open spec fn test_and_jump(cond: u8) -> Seq<u8> {
    seq![0x8au8, 0x04, 0x1f, 0x3c, 0x00, 0x0f, cond]
}

/// Saves `rdi`, `rsi`, `rdx`, `rcx`, `r8` and keeps the stack 16-byte aligned for a call.
pub open spec fn save_regs() -> Seq<u8> {
    seq![0x57u8, 0x56, 0x52, 0x51, 0x41, 0x50, 0x48, 0x83, 0xec, 0x08]
}

/// Undoes `save_regs`.
pub open spec fn restore_regs() -> Seq<u8> {
    seq![0x48u8, 0x83, 0xc4, 0x08, 0x41, 0x58, 0x59, 0x5a, 0x5e, 0x5f]
}

/// The machine code of one op; `rel` is the displacement of a jump.
pub open spec fn encode(op: OpCode, rel: int) -> Seq<u8> {
    match op {
        OpCode::Right { count } => seq![0x81u8, 0xc3] + le32(count as int),
        OpCode::Left { count } => seq![0x81u8, 0xeb] + le32(count as int),
        OpCode::Inc { count, offset } => seq![0x80u8, 0x84, 0x1f] + le32(offset as int) + seq![count],
        OpCode::Dec { count, offset } => seq![0x80u8, 0xac, 0x1f] + le32(offset as int) + seq![count],
        OpCode::Output => save_regs() + seq![
            0x48u8, 0x89, 0xf0, 0x48, 0x0f, 0xb6, 0x34, 0x1f, 0x48, 0x89, 0xc7, 0xff, 0xd2,
        ] + restore_regs(),
        OpCode::Input => save_regs() + seq![0x48u8, 0x89, 0xcf, 0x41, 0xff, 0xd0] + restore_regs()
            + seq![0x88u8, 0x04, 0x1f],
        OpCode::JumpIfZero { .. } => test_and_jump(0x84) + le32(rel),
        OpCode::JumpIfNotZero { .. } => test_and_jump(0x85) + le32(rel),
        OpCode::SetZero => seq![0xc6u8, 0x04, 0x1f, 0x00],
        OpCode::Mul { factor, offset } => seq![0x48u8, 0x0f, 0xb6, 0x04, 0x1f, 0x48, 0x6b, 0xc0, factor, 0x00, 0x84, 0x1f]
            + le32(offset as int) + seq![0xc6u8, 0x04, 0x1f, 0x00],
    }
}

pub open spec fn op_len(op: OpCode) -> nat {
    match op {
        OpCode::Right { .. } => 6,
        OpCode::Left { .. } => 6,
        OpCode::Inc { .. } => 8,
        OpCode::Dec { .. } => 8,
        OpCode::Output => 33,
        OpCode::Input => 29,
        OpCode::JumpIfZero { .. } => 11,
        OpCode::JumpIfNotZero { .. } => 11,
        OpCode::SetZero => 4,
        OpCode::Mul { .. } => 20,
    }
}

/// Where the code of op `k` starts; an index past the stream maps to the epilogue.
pub open spec fn code_offset(s: Seq<OpCode>, k: int) -> int
    decreases k,
{
    if k <= 0 {
        4
    } else if k > s.len() {
        code_offset(s, s.len() as int)
    } else {
        code_offset(s, k - 1) + op_len(s[k - 1])
    }
}

/// The size of the whole emitted function.
pub open spec fn code_size(s: Seq<OpCode>) -> int {
    code_offset(s, s.len() as int) + 2
}

/// The jump displacement of op `k`: from the end of its code to the start of
/// the code of its target.
pub open spec fn rel_at(s: Seq<OpCode>, k: int) -> int {
    match s[k] {
        OpCode::JumpIfZero { target } => code_offset(s, target as int) - code_offset(s, k + 1),
        OpCode::JumpIfNotZero { target } => code_offset(s, target as int) - code_offset(s, k + 1),
        _ => 0,
    }
}

/// The code of ops `0..k`.
pub open spec fn body(s: Seq<OpCode>, k: int) -> Seq<u8>
    decreases k,
{
    if k <= 0 {
        seq![]
    } else {
        body(s, k - 1) + encode(s[k - 1], rel_at(s, k - 1))
    }
}

/// The function emitted for an op stream whose jumps are resolved.
pub open spec fn emitted(s: Seq<OpCode>) -> Seq<u8> {
    prologue() + body(s, s.len() as int) + epilogue()
}

fn le_bytes(v: u32) -> (r: (u8, u8, u8, u8))
    ensures
        seq![r.0, r.1, r.2, r.3] == le32(v as int),
{
    ((v % 256) as u8, ((v / 256) % 256) as u8, ((v / 65536) % 256) as u8, ((v / 16777216) % 256) as u8)
}

fn le_bytes_signed(v: i32) -> (r: (u8, u8, u8, u8))
    ensures
        seq![r.0, r.1, r.2, r.3] == le32(v as int),
{
    let u: u32 = if v >= 0 { v as u32 } else { (0x1_0000_0000i64 + v as i64) as u32 };
    le_bytes(u)
}

/// `add ebx, count`
fn move_cell_right(count: u32) -> (r: Vec<u8>)
    ensures
        r@ == encode(OpCode::Right { count }, 0),
{
    let b = le_bytes(count);
    vec![0x81, 0xc3, b.0, b.1, b.2, b.3]
}

/// `sub ebx, count`
fn move_cell_left(count: u32) -> (r: Vec<u8>)
    ensures
        r@ == encode(OpCode::Left { count }, 0),
{
    let b = le_bytes(count);
    vec![0x81, 0xeb, b.0, b.1, b.2, b.3]
}

/// `add byte [rdi+rbx+offset], count`
fn add_current_cell(count: u8, offset: i32) -> (r: Vec<u8>)
    ensures
        r@ == encode(OpCode::Inc { count, offset }, 0),
{
    let b = le_bytes_signed(offset);
    let r = vec![0x80, 0x84, 0x1f, b.0, b.1, b.2, b.3, count];
    assert(r@ =~= encode(OpCode::Inc { count, offset }, 0));
    r
}

/// `sub byte [rdi+rbx+offset], count`
fn sub_current_cell(count: u8, offset: i32) -> (r: Vec<u8>)
    ensures
        r@ == encode(OpCode::Dec { count, offset }, 0),
{
    let b = le_bytes_signed(offset);
    let r = vec![0x80, 0xac, 0x1f, b.0, b.1, b.2, b.3, count];
    assert(r@ =~= encode(OpCode::Dec { count, offset }, 0));
    r
}

fn init() -> (r: Vec<u8>)
    ensures
        r@ == prologue(),
{
    vec![0x53, 0x48, 0x31, 0xdb]
}

fn finish() -> (r: Vec<u8>)
    ensures
        r@ == epilogue(),
{
    vec![0x5b, 0xc3]
}

/// `mov al, [rdi+rbx]; cmp al, 0; jz rel`
fn jump_if_zero(rel: u32) -> (r: Vec<u8>)
    ensures
        forall|t: usize| r@ == encode(OpCode::JumpIfZero { target: t }, rel as int),
{
    let b = le_bytes(rel);
    let r = vec![0x8a, 0x04, 0x1f, 0x3c, 0x00, 0x0f, 0x84, b.0, b.1, b.2, b.3];
    assert(r@ =~= test_and_jump(0x84) + le32(rel as int));
    r
}

/// `mov al, [rdi+rbx]; cmp al, 0; jnz rel`
fn jump_if_not_zero(rel: u32) -> (r: Vec<u8>)
    ensures
        forall|t: usize| r@ == encode(OpCode::JumpIfNotZero { target: t }, rel as int),
{
    let b = le_bytes(rel);
    let r = vec![0x8a, 0x04, 0x1f, 0x3c, 0x00, 0x0f, 0x85, b.0, b.1, b.2, b.3];
    assert(r@ =~= test_and_jump(0x85) + le32(rel as int));
    r
}

/// `mov byte [rdi+rbx], value`
fn write_to_current_cell(value: u8) -> (r: Vec<u8>)
    ensures
        r@ == seq![0xc6u8, 0x04, 0x1f, value],
{
    vec![0xc6, 0x04, 0x1f, value]
}

/// Calls the printer function with the printer object and the current cell.
fn print_current_cell() -> (r: Vec<u8>)
    ensures
        r@ == encode(OpCode::Output, 0),
{
    let r = vec![
        0x57, 0x56, 0x52, 0x51, 0x41, 0x50, 0x48, 0x83, 0xec, 0x08,
        0x48, 0x89, 0xf0, 0x48, 0x0f, 0xb6, 0x34, 0x1f, 0x48, 0x89, 0xc7, 0xff, 0xd2,
        0x48, 0x83, 0xc4, 0x08, 0x41, 0x58, 0x59, 0x5a, 0x5e, 0x5f,
    ];
    assert(r@ =~= encode(OpCode::Output, 0));
    r
}

/// Calls the scanner function with the scanner object and stores the byte it
/// returns in the current cell.
fn scan_current_cell() -> (r: Vec<u8>)
    ensures
        r@ == encode(OpCode::Input, 0),
{
    let r = vec![
        0x57, 0x56, 0x52, 0x51, 0x41, 0x50, 0x48, 0x83, 0xec, 0x08,
        0x48, 0x89, 0xcf, 0x41, 0xff, 0xd0,
        0x48, 0x83, 0xc4, 0x08, 0x41, 0x58, 0x59, 0x5a, 0x5e, 0x5f,
        0x88, 0x04, 0x1f,
    ];
    assert(r@ =~= encode(OpCode::Input, 0));
    r
}

/// `movzx rax, [rdi+rbx]; imul rax, rax, factor; add [rdi+rbx+offset], al; mov byte [rdi+rbx], 0`
fn mul(factor: u8, offset: i32) -> (r: Vec<u8>)
    ensures
        r@ == encode(OpCode::Mul { factor, offset }, 0),
{
    let b = le_bytes_signed(offset);
    let r = vec![
        0x48, 0x0f, 0xb6, 0x04, 0x1f, 0x48, 0x6b, 0xc0, factor, 0x00, 0x84, 0x1f,
        b.0, b.1, b.2, b.3, 0xc6, 0x04, 0x1f, 0x00,
    ];
    assert(r@ =~= encode(OpCode::Mul { factor, offset }, 0));
    r
}

/// The start of the code of every op, and where the epilogue starts, or none
/// when the function would be larger than `CODE_LIMIT`.
pub fn code_offsets(ops: &[OpCode]) -> (r: Option<Vec<usize>>)
    ensures
        r is None <==> code_size(ops@) > CODE_LIMIT,
        r matches Some(offs) ==> offs@.len() == ops@.len() + 1 && forall|k: int|
            0 <= k <= ops@.len() ==> #[trigger] offs@[k] == code_offset(ops@, k),
{
    let mut offs: Vec<usize> = Vec::new();
    offs.push(4);
    let mut k: usize = 0;
    while k < ops.len()
        invariant
            k <= ops@.len(),
            offs@.len() == k + 1,
            forall|q: int| 0 <= q <= k ==> #[trigger] offs@[q] == code_offset(ops@, q),
            code_offset(ops@, k as int) + 2 <= CODE_LIMIT,
        decreases ops.len() - k,
    {
        let len: usize = match ops[k] {
            OpCode::Right { .. } => 6,
            OpCode::Left { .. } => 6,
            OpCode::Inc { .. } => 8,
            OpCode::Dec { .. } => 8,
            OpCode::Output => 33,
            OpCode::Input => 29,
            OpCode::JumpIfZero { .. } => 11,
            OpCode::JumpIfNotZero { .. } => 11,
            OpCode::SetZero => 4,
            OpCode::Mul { .. } => 20,
        };
        let next = offs[k] + len;
        if next + 2 > CODE_LIMIT {
            proof {
                lemma_offset_grows(ops@, k + 1);
            }
            return None;
        }
        offs.push(next);
        k += 1;
    }
    Some(offs)
}

/// Code offsets grow with the op index, up to the size of the function.
pub proof fn lemma_offset_grows(s: Seq<OpCode>, k: int)
    requires
        0 <= k <= s.len(),
    ensures
        forall|q: int| 0 <= q <= k ==> #[trigger] code_offset(s, q) <= code_offset(s, k),
        code_offset(s, k) <= code_offset(s, s.len() as int),
    decreases s.len() - k,
{
    if k < s.len() {
        lemma_offset_grows(s, k + 1);
    }
    lemma_offset_mono(s, k);
}

proof fn lemma_offset_mono(s: Seq<OpCode>, k: int)
    requires
        0 <= k <= s.len(),
    ensures
        forall|q: int| 0 <= q <= k ==> #[trigger] code_offset(s, q) <= code_offset(s, k),
    decreases k,
{
    if k > 0 {
        lemma_offset_mono(s, k - 1);
    }
}

/// The rel32 field, modulo 2^32, of a jump from the end of op `k` to `target`.
fn rel_field(offs: &Vec<usize>, k: usize, target: usize) -> (r: u32)
    requires
        k < offs@.len() - 1,
        forall|q: int| 0 <= q < offs@.len() ==> #[trigger] offs@[q] <= CODE_LIMIT,
    ensures
        le32(r as int) == le32(offs@[if target < offs@.len() { target as int } else { offs@.len() - 1 }] - offs@[k + 1]),
{
    let t = if target < offs.len() { target } else { offs.len() - 1 };
    let from = offs[k + 1];
    let to = offs[t];
    if to >= from {
        (to - from) as u32
    } else {
        let r = (0x1_0000_0000u64 - (from - to) as u64) as u32;
        assert((r as int) % 0x1_0000_0000 == (to - from) % 0x1_0000_0000);
        r
    }
}

/// The code of op `k`.
fn emit_op(ops: &[OpCode], offs: &Vec<usize>, k: usize) -> (part: Vec<u8>)
    requires
        k < ops@.len(),
        offs@.len() == ops@.len() + 1,
        forall|q: int| 0 <= q <= ops@.len() ==> #[trigger] offs@[q] == code_offset(ops@, q),
        forall|q: int| 0 <= q < offs@.len() ==> #[trigger] offs@[q] <= CODE_LIMIT,
    ensures
        part@ == encode(ops@[k as int], rel_at(ops@, k as int)),
{
    let op = ops[k];
    match op {
        OpCode::Right { count } => move_cell_right(count),
        OpCode::Left { count } => move_cell_left(count),
        OpCode::Inc { count, offset } => add_current_cell(count, offset),
        OpCode::Dec { count, offset } => sub_current_cell(count, offset),
        OpCode::Output => print_current_cell(),
        OpCode::Input => scan_current_cell(),
        OpCode::JumpIfZero { target } => {
            let rel = jump_rel(ops, offs, k, target);
            let part = jump_if_zero(rel);
            assert(part@ == encode(op, rel as int));
            assert(rel_at(ops@, k as int) == code_offset(ops@, target as int) - code_offset(ops@, k + 1));
            part
        },
        OpCode::JumpIfNotZero { target } => {
            let rel = jump_rel(ops, offs, k, target);
            let part = jump_if_not_zero(rel);
            assert(part@ == encode(op, rel as int));
            assert(rel_at(ops@, k as int) == code_offset(ops@, target as int) - code_offset(ops@, k + 1));
            part
        },
        OpCode::SetZero => write_to_current_cell(0),
        OpCode::Mul { factor, offset } => crate::jit::mul(factor, offset),
    }
}

/// The rel32 field of a jump at op `k` to op `target`.
fn jump_rel(ops: &[OpCode], offs: &Vec<usize>, k: usize, target: usize) -> (r: u32)
    requires
        k < ops@.len(),
        offs@.len() == ops@.len() + 1,
        forall|q: int| 0 <= q <= ops@.len() ==> #[trigger] offs@[q] == code_offset(ops@, q),
        forall|q: int| 0 <= q < offs@.len() ==> #[trigger] offs@[q] <= CODE_LIMIT,
    ensures
        le32(r as int) == le32(code_offset(ops@, target as int) - code_offset(ops@, k + 1)),
{
    proof {
        if target > ops@.len() {
            assert(code_offset(ops@, target as int) == code_offset(ops@, ops@.len() as int));
        }
    }
    rel_field(offs, k, target)
}

/// Emits the function for an op stream whose jump targets are op indices;
/// a target past the stream jumps to the epilogue.
pub fn emit(ops: &[OpCode], offs: &Vec<usize>) -> (code: Vec<u8>)
    requires
        code_size(ops@) <= CODE_LIMIT,
        offs@.len() == ops@.len() + 1,
        forall|k: int| 0 <= k <= ops@.len() ==> #[trigger] offs@[k] == code_offset(ops@, k),
    ensures
        code@ == emitted(ops@),
{
    proof {
        lemma_offset_grows(ops@, ops@.len() as int);
        assert forall|q: int| 0 <= q < offs@.len() implies #[trigger] offs@[q] <= CODE_LIMIT by {
            assert(code_offset(ops@, q) <= code_offset(ops@, ops@.len() as int));
        }
    }
    let mut code = init();
    let mut k: usize = 0;
    while k < ops.len()
        invariant
            k <= ops@.len(),
            offs@.len() == ops@.len() + 1,
            forall|q: int| 0 <= q <= ops@.len() ==> #[trigger] offs@[q] == code_offset(ops@, q),
            forall|q: int| 0 <= q < offs@.len() ==> #[trigger] offs@[q] <= CODE_LIMIT,
            code@ == prologue() + body(ops@, k as int),
        decreases ops.len() - k,
    {
        let mut part = emit_op(ops, offs, k);
        proof {
            assert(code@ + part@ =~= prologue() + body(ops@, k + 1));
        }
        code.append(&mut part);
        k += 1;
    }
    let mut tail = finish();
    code.append(&mut tail);
    code
}

/// Ops with the same tags give code of the same layout.
pub proof fn lemma_same_layout(s: Seq<OpCode>, t: Seq<OpCode>, k: int)
    requires
        s.len() == t.len(),
        forall|p: int| 0 <= p < s.len() ==> op_len(#[trigger] s[p]) == op_len(t[p]),
    ensures
        code_offset(s, k) == code_offset(t, k),
    decreases k,
{
    if k > s.len() {
        lemma_same_layout(s, t, s.len() as int);
    } else if k > 0 {
        lemma_same_layout(s, t, k - 1);
    }
}

/// Resolving jumps keeps the tag of every op.
pub proof fn lemma_patch_keeps_tags(s: Seq<OpCode>, t: Seq<OpCode>)
    requires
        back_patched(s, t, s.len() as int),
    ensures
        forall|p: int| 0 <= p < s.len() ==> op_len(#[trigger] s[p]) == op_len(t[p]),
{
    assert forall|p: int| 0 <= p < s.len() implies op_len(#[trigger] s[p]) == op_len(t[p]) by {
        if s[p] is JumpIfNotZero {
            let i = choose|i: int| is_pair(s, i, p);
            assert(is_pair(s, i, p));
        } else if s[p] is JumpIfZero {
            if closed_before(s, p, s.len() as int) {
                let j = choose|j: int| j < s.len() && #[trigger] is_pair(s, p, j);
                assert(is_pair(s, p, j));
            }
        }
    }
}

/// Two op streams that differ at most in their jump targets.
pub open spec fn same_shape(s1: Seq<OpCode>, s2: Seq<OpCode>) -> bool {
    &&& s1.len() == s2.len()
    &&& forall|p: int|
        0 <= p < s1.len() ==> (is_open(#[trigger] s1[p]) <==> is_open(s2[p])) && (is_close(s1[p])
            <==> is_close(s2[p])) && (!is_open(s1[p]) && !is_close(s1[p]) ==> s1[p] == s2[p])
}

proof fn lemma_same_shape_depth(s1: Seq<OpCode>, s2: Seq<OpCode>, k: int)
    requires
        same_shape(s1, s2),
        k <= s1.len(),
    ensures
        depth(s1, k) == depth(s2, k),
    decreases k,
{
    if k > 0 {
        lemma_same_shape_depth(s1, s2, k - 1);
        assert(is_open(s1[k - 1]) <==> is_open(s2[k - 1]));
    }
}

proof fn lemma_same_shape_pairs(s1: Seq<OpCode>, s2: Seq<OpCode>, i: int, j: int)
    requires
        same_shape(s1, s2),
    ensures
        is_pair(s1, i, j) <==> is_pair(s2, i, j),
{
    if 0 <= i < j < s1.len() {
        lemma_same_shape_depth(s1, s2, i);
        lemma_same_shape_depth(s1, s2, j);
        assert forall|k: int| i < k < j implies (is_open(#[trigger] s1[k]) && depth(s1, k) == depth(s1, i))
            <==> (is_open(s2[k]) && depth(s2, k) == depth(s2, i)) by {
            lemma_same_shape_depth(s1, s2, k);
        }
        if is_pair(s1, i, j) {
            assert forall|k: int| i < k < j && is_open(#[trigger] s2[k]) implies depth(s2, k) != depth(s2, i) by {
                lemma_same_shape_depth(s1, s2, k);
                assert(0 <= k < s1.len());
                assert(is_open(s1[k]));
                assert(depth(s1, k) != depth(s1, i));
            }
        }
        if is_pair(s2, i, j) {
            assert forall|k: int| i < k < j && is_open(#[trigger] s1[k]) implies depth(s1, k) != depth(s1, i) by {
                lemma_same_shape_depth(s1, s2, k);
                assert(0 <= k < s1.len());
                assert(is_open(s2[k]));
                assert(depth(s2, k) != depth(s2, i));
            }
        }
    }
}

/// The code emitted for a stream whose brackets all pair up does not depend on
/// the jump targets it held: two such streams that differ only in targets
/// resolve to the same stream, and so give the same code.
pub proof fn lemma_emitted_ignores_targets(s1: Seq<OpCode>, s2: Seq<OpCode>, t1: Seq<OpCode>, t2: Seq<OpCode>)
    requires
        same_shape(s1, s2),
        brackets_paired(s1),
        back_patched(s1, t1, s1.len() as int),
        back_patched(s2, t2, s2.len() as int),
    ensures
        t1 == t2,
        emitted(t1) == emitted(t2),
{
    assert forall|p: int| 0 <= p < s1.len() implies t1[p] == t2[p] by {
        if is_close(s1[p]) {
            let i = choose|i: int| is_pair(s1, i, p);
            lemma_same_shape_pairs(s1, s2, i, p);
            assert(is_pair(s1, i, p) && is_pair(s2, i, p));
        } else if is_open(s1[p]) {
            assert(closed_before(s1, p, s1.len() as int));
            let j = choose|j: int| j < s1.len() && #[trigger] is_pair(s1, p, j);
            lemma_same_shape_pairs(s1, s2, p, j);
            assert(is_pair(s1, p, j) && is_pair(s2, p, j));
        }
    }
    assert(t1 =~= t2);
}

/// Compiles an op stream with unresolved jumps to the machine code of one
/// function: the jumps of each `[`/`]` pair are resolved, then every op is
/// encoded. Fails on a `]` with no `[` open before it, on a `[` that no `]`
/// closes, and on code too large for 32-bit jumps. The jump targets that
/// `ops` holds are not read.
pub fn jit(ops: &[OpCode]) -> (r: Result<Vec<u8>, EmitError>)
    ensures
        r matches Err(EmitError::UnmatchedClose { index }) ==> first_unmatched_close(ops@, index as int),
        r matches Err(EmitError::UnmatchedOpen { index }) ==> outer_unclosed_open(ops@, index as int),
        r matches Err(EmitError::TooLarge) ==> brackets_paired(ops@) && code_size(ops@) > CODE_LIMIT,
        r is Ok ==> brackets_paired(ops@) && code_size(ops@) <= CODE_LIMIT,
        r matches Ok(code) ==> exists|t: Seq<OpCode>|
            back_patched(ops@, t, ops@.len() as int) && code@ == #[trigger] emitted(t),
        r matches Ok(code) ==> forall|t: Seq<OpCode>|
            back_patched(ops@, t, ops@.len() as int) ==> code@ == #[trigger] emitted(t),
{
    let mut patched = vstd::slice::slice_to_vec(ops);
    match back_patch(&mut patched) {
        Err(BracketError::UnmatchedClose { index }) => {
            return Err(EmitError::UnmatchedClose { index });
        },
        Err(BracketError::UnmatchedOpen { index }) => {
            return Err(EmitError::UnmatchedOpen { index });
        },
        Ok(()) => {},
    }
    proof {
        lemma_patch_keeps_tags(ops@, patched@);
        lemma_same_layout(ops@, patched@, ops@.len() as int);
    }
    match code_offsets(patched.as_slice()) {
        None => Err(EmitError::TooLarge),
        Some(offs) => {
            let code = emit(patched.as_slice(), &offs);
            proof {
                assert forall|t: Seq<OpCode>| back_patched(ops@, t, ops@.len() as int) implies code@
                    == #[trigger] emitted(t) by {
                    lemma_back_patched_unique(ops@, t, patched@);
                }
                assert(back_patched(ops@, patched@, ops@.len() as int) && code@ == emitted(patched@));
            }
            Ok(code)
        },
    }
}

} // verus!
