//! The op-stream representation, the parser that produces it from source
//! bytes, and the peephole optimizer that rewrites it.
use vstd::prelude::*;

verus! {

/// One instruction of the op stream.
#[allow(inconsistent_fields)]
#[derive(Debug, Clone, Copy, PartialEq, Eq, Structural)]
pub enum OpCode {
    /// Moves the cursor `count` cells to the right.
    Right { count: u32 },
    /// Moves the cursor `count` cells to the left.
    Left { count: u32 },
    /// Adds `count` (mod 256) to the cell at cursor + `offset`.
    Inc { count: u8, offset: i32 },
    /// Subtracts `count` (mod 256) from the cell at cursor + `offset`.
    Dec { count: u8, offset: i32 },
    /// Emits the byte in the current cell.
    Output,
    /// Reads one byte into the current cell.
    Input,
    /// If the current cell is 0, jumps to `target`, else goes on with the next op.
    JumpIfZero { target: usize },
    /// If the current cell is not 0, jumps to `target`, else goes on with the next op.
    JumpIfNotZero { target: usize },
    /// Stores 0 into the current cell.
    SetZero,
    /// Adds the current cell times `factor` (mod 256) to the cell at
    /// cursor + `offset`, then stores 0 into the current cell.
    Mul { factor: u8, offset: i32 },
}

/// The instruction bytes of the source language.
pub const LT: u8 = 60;
pub const GT: u8 = 62;
pub const PLUS: u8 = 43;
pub const MINUS: u8 = 45;
pub const DOT: u8 = 46;
pub const COMMA: u8 = 44;
pub const OPEN: u8 = 91;
pub const CLOSE: u8 = 93;

/// The eight bytes that are instructions; every other byte is a comment.
pub open spec fn is_code(b: u8) -> bool {
    b == LT || b == GT || b == PLUS || b == MINUS || b == DOT || b == COMMA || b == OPEN
        || b == CLOSE
}

/// The source with every comment byte removed.
pub open spec fn strip(code: Seq<u8>) -> Seq<u8>
    decreases code.len(),
{
    if code.len() == 0 {
        seq![]
    } else {
        let rest = strip(code.drop_last());
        if is_code(code.last()) {
            rest.push(code.last())
        } else {
            rest
        }
    }
}

/// The largest count that one op folded from a run of `b` can hold.
pub open spec fn run_cap(b: u8) -> nat {
    if b == PLUS || b == MINUS {
        255
    } else if b == LT || b == GT {
        0xffff_ffff
    } else {
        1
    }
}

/// How many copies of `b` follow one another from index `i` of `s`, up to `cap`.
pub open spec fn run_len(s: Seq<u8>, i: int, b: u8, cap: nat) -> nat
    decreases cap,
{
    if cap > 0 && 0 <= i < s.len() && s[i] == b {
        1 + run_len(s, i + 1, b, (cap - 1) as nat)
    } else {
        0
    }
}

/// The op for a run of `n` copies of the instruction byte `b`.
pub open spec fn op_for(b: u8, n: nat) -> OpCode {
    if b == PLUS {
        OpCode::Inc { count: n as u8, offset: 0 }
    } else if b == MINUS {
        OpCode::Dec { count: n as u8, offset: 0 }
    } else if b == LT {
        OpCode::Left { count: n as u32 }
    } else if b == GT {
        OpCode::Right { count: n as u32 }
    } else if b == DOT {
        OpCode::Output
    } else if b == COMMA {
        OpCode::Input
    } else if b == OPEN {
        OpCode::JumpIfZero { target: 0 }
    } else {
        OpCode::JumpIfNotZero { target: 0 }
    }
}

/// The ops for the stripped source `s` from index `i` on.
pub open spec fn parse_from(s: Seq<u8>, i: int) -> Seq<OpCode>
    decreases s.len() - i via parse_from_decreases
{
    if 0 <= i < s.len() {
        let n = 1 + run_len(s, i + 1, s[i], (run_cap(s[i]) - 1) as nat);
        seq![op_for(s[i], n)] + parse_from(s, i + n)
    } else {
        seq![]
    }
}

/// A run never reaches past the end of the sequence.
pub proof fn lemma_run_len_bound(s: Seq<u8>, i: int, b: u8, cap: nat)
    requires
        0 <= i <= s.len(),
    ensures
        i + run_len(s, i, b, cap) <= s.len(),
        run_len(s, i, b, cap) <= cap,
    decreases cap,
{
    if cap > 0 && 0 <= i < s.len() && s[i] == b {
        lemma_run_len_bound(s, i + 1, b, (cap - 1) as nat);
    }
}

#[via_fn]
proof fn parse_from_decreases(s: Seq<u8>, i: int) {
    if 0 <= i < s.len() {
        lemma_run_len_bound(s, i + 1, s[i], (run_cap(s[i]) - 1) as nat);
    }
}

/// The op stream that the parser makes of `code`.
pub open spec fn parse(code: Seq<u8>) -> Seq<OpCode> {
    parse_from(strip(code), 0)
}

/// Two ops of the same run-folded kind: `Inc`/`Inc`, `Dec`/`Dec`,
/// `Left`/`Left` or `Right`/`Right`.
pub open spec fn same_run_kind(a: OpCode, b: OpCode) -> bool {
    ||| a is Inc && b is Inc
    ||| a is Dec && b is Dec
    ||| a is Left && b is Left
    ||| a is Right && b is Right
}

/// A byte whose runs fold into one op: `+`, `-`, `<` or `>`.
pub open spec fn is_run_byte(b: u8) -> bool {
    b == PLUS || b == MINUS || b == LT || b == GT
}

/// No run of `+`, `-`, `<` or `>` in `s` is longer than one op can count.
pub open spec fn runs_fit(s: Seq<u8>) -> bool {
    forall|i: int|
        0 <= i < s.len() && is_run_byte(s[i]) ==> #[trigger] run_len(s, i, s[i], run_cap(s[i]) + 1)
            <= run_cap(s[i])
}

/// A run cut short of its cap ends at a different byte or at the end.
pub proof fn lemma_run_ends(s: Seq<u8>, j: int, b: u8, c: nat)
    requires
        0 <= j,
        run_len(s, j, b, c) < c,
        j + run_len(s, j, b, c) < s.len(),
    ensures
        s[j + run_len(s, j, b, c)] != b,
    decreases c,
{
    if c > 0 && 0 <= j < s.len() && s[j] == b {
        lemma_run_ends(s, j + 1, b, (c - 1) as nat);
    }
}

/// A run that fills its cap and is followed by one more copy is one longer
/// under a cap one larger.
pub proof fn lemma_run_extends(s: Seq<u8>, j: int, b: u8, c: nat)
    requires
        0 <= j,
        run_len(s, j, b, c) == c,
        j + c < s.len(),
        s[j + c] == b,
    ensures
        run_len(s, j, b, c + 1) == c + 1,
    decreases c,
{
    if c > 0 {
        lemma_run_extends(s, j + 1, b, (c - 1) as nat);
    } else {
        assert(run_len(s, j + 1, b, 0) == 0);
    }
}

proof fn lemma_parse_from_runs(s: Seq<u8>, i: int)
    requires
        0 <= i <= s.len(),
        runs_fit(s),
    ensures
        forall|k: int|
            0 <= k < parse_from(s, i).len() - 1 ==> !same_run_kind(
                #[trigger] parse_from(s, i)[k],
                parse_from(s, i)[k + 1],
            ),
        i < s.len() ==> parse_from(s, i).len() > 0 && parse_from(s, i)[0] == op_for(
            s[i],
            1 + run_len(s, i + 1, s[i], (run_cap(s[i]) - 1) as nat),
        ),
    decreases s.len() - i,
{
    if i < s.len() {
        let b = s[i];
        let n = 1 + run_len(s, i + 1, b, (run_cap(b) - 1) as nat);
        lemma_run_len_bound(s, i + 1, b, (run_cap(b) - 1) as nat);
        let head = op_for(b, n);
        let rest = parse_from(s, i + n);
        lemma_parse_from_runs(s, i + n);
        assert(parse_from(s, i) == seq![head] + rest);
        if i + n < s.len() {
            let r = (n - 1) as nat;
            let c = (run_cap(b) - 1) as nat;
            if r < c {
                lemma_run_ends(s, i + 1, b, c);
            } else if s[i + n] == b && is_run_byte(b) {
                lemma_run_extends(s, i + 1, b, c);
                assert(run_len(s, i, b, run_cap(b) + 1) == 1 + run_len(s, i + 1, b, c + 1));
                assert(run_len(s, i, s[i], run_cap(s[i]) + 1) <= run_cap(s[i]));
            }
            assert(s[i + n] != b || !(b == PLUS || b == MINUS || b == LT || b == GT));
            assert(!same_run_kind(head, rest[0]));
        }
        assert forall|k: int|
            0 <= k < parse_from(s, i).len() - 1 implies !same_run_kind(
            #[trigger] parse_from(s, i)[k],
            parse_from(s, i)[k + 1],
        ) by {
            if k > 0 {
                assert(parse_from(s, i)[k] == rest[k - 1]);
                assert(parse_from(s, i)[k + 1] == rest[k]);
            }
        }
    }
}

/// After parsing, no two adjacent ops are both `Inc`, both `Dec`, both `Left`
/// or both `Right`, wherever no run of `+`, `-`, `<` or `>` exceeds what one
/// op can count.
pub proof fn lemma_parse_runs_maximal(code: Seq<u8>)
    requires
        runs_fit(strip(code)),
    ensures
        forall|k: int|
            0 <= k < parse(code).len() - 1 ==> !same_run_kind(
                #[trigger] parse(code)[k],
                parse(code)[k + 1],
            ),
{
    lemma_parse_from_runs(strip(code), 0);
}

fn is_code_byte(b: u8) -> (r: bool)
    ensures
        r == is_code(b),
{
    b == LT || b == GT || b == PLUS || b == MINUS || b == DOT || b == COMMA || b == OPEN
        || b == CLOSE
}

fn strip_comments(code: &[u8]) -> (r: Vec<u8>)
    ensures
        r@ == strip(code@),
{
    let mut r: Vec<u8> = Vec::new();
    let mut i: usize = 0;
    while i < code.len()
        invariant
            i <= code.len(),
            r@ == strip(code@.take(i as int)),
        decreases code.len() - i,
    {
        proof {
            assert(code@.take(i + 1).drop_last() =~= code@.take(i as int));
        }
        if is_code_byte(code[i]) {
            r.push(code[i]);
        }
        i += 1;
    }
    proof {
        assert(code@.take(code.len() as int) =~= code@);
    }
    r
}

/// Counts the run of `s[i]` that starts at `i`, up to `cap` bytes.
fn count_run(s: &Vec<u8>, i: usize, cap: usize) -> (n: usize)
    requires
        i < s.len(),
        cap >= 1,
    ensures
        n == 1 + run_len(s@, i + 1, s@[i as int], (cap - 1) as nat),
        1 <= n <= cap,
        i + n <= s.len(),
{
    let b = s[i];
    let mut n: usize = 1;
    while n < cap && n < s.len() - i && s[i + n] == b
        invariant
            i < s.len(),
            b == s@[i as int],
            1 <= n <= cap,
            i + n <= s.len(),
            1 + run_len(s@, i + 1, b, (cap - 1) as nat) == n + run_len(
                s@,
                i + n,
                b,
                (cap - n) as nat,
            ),
        decreases cap - n,
    {
        n += 1;
    }
    n
}

fn op_of(b: u8, n: usize) -> (op: OpCode)
    requires
        n <= 0xffff_ffff,
        b == PLUS || b == MINUS ==> n <= 255,
    ensures
        op == op_for(b, n as nat),
{
    if b == PLUS {
        OpCode::Inc { count: n as u8, offset: 0 }
    } else if b == MINUS {
        OpCode::Dec { count: n as u8, offset: 0 }
    } else if b == LT {
        OpCode::Left { count: n as u32 }
    } else if b == GT {
        OpCode::Right { count: n as u32 }
    } else if b == DOT {
        OpCode::Output
    } else if b == COMMA {
        OpCode::Input
    } else if b == OPEN {
        OpCode::JumpIfZero { target: 0 }
    } else {
        OpCode::JumpIfNotZero { target: 0 }
    }
}

/// Parses source bytes into an op stream: comments are skipped, each run of
/// `+`, `-`, `<` or `>` becomes one op (several where the run exceeds the
/// count's width), and jump targets are left as 0.
pub fn compile_impl(code: &[u8]) -> (ops: Vec<OpCode>)
    ensures
        ops@ == parse(code@),
{
    let s = strip_comments(code);
    let mut ops: Vec<OpCode> = Vec::new();
    let mut i: usize = 0;
    while i < s.len()
        invariant
            i <= s.len(),
            ops@ + parse_from(s@, i as int) == parse_from(s@, 0),
        decreases s.len() - i,
    {
        let b = s[i];
        let cap: usize = if b == PLUS || b == MINUS {
            255
        } else if b == LT || b == GT {
            0xffff_ffff
        } else {
            1
        };
        let n = count_run(&s, i, cap);
        let op = op_of(b, n);
        proof {
            assert(ops@.push(op) + parse_from(s@, i + n) =~= ops@ + parse_from(s@, i as int));
        }
        ops.push(op);
        i = i + n;
    }
    proof {
        assert(ops@ + parse_from(s@, i as int) =~= ops@);
    }
    ops
}

/// Whether two adjacent ops fold into one: the same pointer motion, or the
/// same change of the current cell, whose counts together still fit.
pub open spec fn mergeable(a: OpCode, b: OpCode) -> bool {
    match (a, b) {
        (OpCode::Right { count: x }, OpCode::Right { count: y }) => x + y <= 0xffff_ffff,
        (OpCode::Left { count: x }, OpCode::Left { count: y }) => x + y <= 0xffff_ffff,
        (OpCode::Inc { count: x, offset: p }, OpCode::Inc { count: y, offset: q }) => p == 0 && q
            == 0 && x + y <= 255,
        (OpCode::Dec { count: x, offset: p }, OpCode::Dec { count: y, offset: q }) => p == 0 && q
            == 0 && x + y <= 255,
        _ => false,
    }
}

/// The single op that two mergeable ops fold into.
pub open spec fn merged(a: OpCode, b: OpCode) -> OpCode {
    match (a, b) {
        (OpCode::Right { count: x }, OpCode::Right { count: y }) => OpCode::Right {
            count: (x + y) as u32,
        },
        (OpCode::Left { count: x }, OpCode::Left { count: y }) => OpCode::Left {
            count: (x + y) as u32,
        },
        (OpCode::Inc { count: x, .. }, OpCode::Inc { count: y, .. }) => OpCode::Inc {
            count: (x + y) as u8,
            offset: 0,
        },
        (OpCode::Dec { count: x, .. }, OpCode::Dec { count: y, .. }) => OpCode::Dec {
            count: (x + y) as u8,
            offset: 0,
        },
        _ => a,
    }
}

/// Run-length consolidation: each op is folded into the op written before it
/// where the two are mergeable.
pub open spec fn pass_a(s: Seq<OpCode>) -> Seq<OpCode>
    decreases s.len(),
{
    if s.len() == 0 {
        seq![]
    } else {
        let out = pass_a(s.drop_last());
        if out.len() > 0 && mergeable(out.last(), s.last()) {
            out.drop_last().push(merged(out.last(), s.last()))
        } else {
            out.push(s.last())
        }
    }
}

/// An `Inc` or `Dec` of the current cell itself.
pub open spec fn is_plain_change(op: OpCode) -> bool {
    match op {
        OpCode::Inc { offset, .. } => offset == 0,
        OpCode::Dec { offset, .. } => offset == 0,
        _ => false,
    }
}

/// The plain change `op` moved to the cell at `offset`.
pub open spec fn with_offset(op: OpCode, offset: i32) -> OpCode {
    match op {
        OpCode::Inc { count, .. } => OpCode::Inc { count, offset },
        OpCode::Dec { count, .. } => OpCode::Dec { count, offset },
        _ => op,
    }
}

/// What a window of three ops is rewritten to by the clear-cell and
/// offset-delta pass, if it is rewritten.
pub open spec fn b_rewrite(a: OpCode, b: OpCode, c: OpCode) -> Option<OpCode> {
    if !is_plain_change(b) {
        None
    } else {
        match (a, c) {
            (OpCode::JumpIfZero { .. }, OpCode::JumpIfNotZero { .. }) => Some(OpCode::SetZero),
            (OpCode::Right { count: n }, OpCode::Left { count: m }) => if n == m && 0 < n
                <= 0x7fff_ffff {
                Some(with_offset(b, n as i32))
            } else {
                None
            },
            (OpCode::Left { count: n }, OpCode::Right { count: m }) => if n == m && 0 < n
                <= 0x7fff_ffff {
                Some(with_offset(b, (0 - n) as i32))
            } else {
                None
            },
            _ => None,
        }
    }
}

/// Whether the clear-cell and offset-delta pass rewrites the window at the front of `s`.
pub open spec fn b_match(s: Seq<OpCode>) -> bool {
    s.len() >= 3 && b_rewrite(s[0], s[1], s[2]) is Some
}

/// The clear-cell and offset-delta pass: greedy, leftmost window first.
pub open spec fn pass_b(s: Seq<OpCode>) -> Seq<OpCode>
    decreases s.len(),
{
    if s.len() == 0 {
        seq![]
    } else if b_match(s) {
        seq![b_rewrite(s[0], s[1], s[2])->0] + pass_b(s.skip(3))
    } else {
        seq![s[0]] + pass_b(s.skip(1))
    }
}

/// What a window of four ops is rewritten to by the multiply-move pass, if it is rewritten.
pub open spec fn c_rewrite(a: OpCode, b: OpCode, c: OpCode, d: OpCode) -> Option<OpCode> {
    match (a, b, c, d) {
        (
            OpCode::JumpIfZero { .. },
            OpCode::Inc { count, offset },
            OpCode::Dec { count: 1, offset: 0 },
            OpCode::JumpIfNotZero { .. },
        ) => Some(OpCode::Mul { factor: count, offset }),
        _ => None,
    }
}

/// Whether the multiply-move pass rewrites the window at the front of `s`.
pub open spec fn c_match(s: Seq<OpCode>) -> bool {
    s.len() >= 4 && c_rewrite(s[0], s[1], s[2], s[3]) is Some
}

/// The multiply-move pass: greedy, leftmost window first.
pub open spec fn pass_c(s: Seq<OpCode>) -> Seq<OpCode>
    decreases s.len(),
{
    if s.len() == 0 {
        seq![]
    } else if c_match(s) {
        seq![c_rewrite(s[0], s[1], s[2], s[3])->0] + pass_c(s.skip(4))
    } else {
        seq![s[0]] + pass_c(s.skip(1))
    }
}

/// The optimizer: the three passes in order.
pub open spec fn optimized(s: Seq<OpCode>) -> Seq<OpCode> {
    pass_c(pass_b(pass_a(s)))
}

/// No two adjacent ops of `s` are mergeable.
pub open spec fn no_merge(s: Seq<OpCode>) -> bool {
    forall|i: int| 0 <= i < s.len() - 1 ==> !mergeable(#[trigger] s[i], s[i + 1])
}

/// No window of three ops of `s` is one that the clear-cell and offset-delta pass rewrites.
pub open spec fn no_b_window(s: Seq<OpCode>) -> bool {
    forall|i: int| 0 <= i < s.len() - 2 ==> b_rewrite(#[trigger] s[i], s[i + 1], s[i + 2]) is None
}

/// No window of four ops of `s` is one that the multiply-move pass rewrites.
pub open spec fn no_c_window(s: Seq<OpCode>) -> bool {
    forall|i: int| 0 <= i < s.len() - 3 ==> c_rewrite(#[trigger] s[i], s[i + 1], s[i + 2], s[i + 3]) is None
}

/// An op that the clear-cell and offset-delta pass writes: it merges with nothing
/// and fits no window of that pass.
pub open spec fn b_fresh(op: OpCode) -> bool {
    ||| op is SetZero
    ||| (op is Inc || op is Dec) && !is_plain_change(op)
}

proof fn lemma_b_rewrite_fresh(a: OpCode, b: OpCode, c: OpCode)
    requires
        b_rewrite(a, b, c) is Some,
    ensures
        b_fresh(b_rewrite(a, b, c)->0),
{
}

proof fn lemma_pass_a_no_merge(s: Seq<OpCode>)
    ensures
        no_merge(pass_a(s)),
    decreases s.len(),
{
    if s.len() > 0 {
        let out = pass_a(s.drop_last());
        lemma_pass_a_no_merge(s.drop_last());
        if out.len() > 0 && mergeable(out.last(), s.last()) {
            let r = out.drop_last().push(merged(out.last(), s.last()));
            assert forall|i: int| 0 <= i < r.len() - 1 implies !mergeable(#[trigger] r[i], r[i + 1]) by {
                assert(r[i] == out[i]);
                if i + 1 < out.len() - 1 {
                    assert(r[i + 1] == out[i + 1]);
                } else {
                    assert(!mergeable(out[i], out[i + 1]));
                }
            }
        } else {
            let r = out.push(s.last());
            assert forall|i: int| 0 <= i < r.len() - 1 implies !mergeable(#[trigger] r[i], r[i + 1]) by {
                assert(r[i] == out[i]);
                if i + 1 < out.len() {
                    assert(r[i + 1] == out[i + 1]);
                }
            }
        }
    }
}

proof fn lemma_pass_a_identity(s: Seq<OpCode>)
    requires
        no_merge(s),
    ensures
        pass_a(s) == s,
    decreases s.len(),
{
    if s.len() > 0 {
        let p = s.drop_last();
        assert forall|i: int| 0 <= i < p.len() - 1 implies !mergeable(#[trigger] p[i], p[i + 1]) by {
            assert(p[i] == s[i] && p[i + 1] == s[i + 1]);
        }
        lemma_pass_a_identity(p);
        if p.len() > 0 {
            assert(!mergeable(s[s.len() - 2], s[s.len() - 1]));
        }
        assert(p.push(s.last()) =~= s);
    }
}

proof fn lemma_pass_b_props(s: Seq<OpCode>)
    ensures
        pass_b(s).len() <= s.len(),
        s.len() > 0 ==> pass_b(s).len() > 0,
        s.len() > 0 && b_match(s) ==> b_fresh(pass_b(s)[0]),
        s.len() > 0 && !b_match(s) ==> pass_b(s) == seq![s[0]] + pass_b(s.skip(1)),
        no_b_window(pass_b(s)),
        no_merge(s) ==> no_merge(pass_b(s)),
    decreases s.len(),
{
    if s.len() > 0 {
        if b_match(s) {
            let t = s.skip(3);
            let p = pass_b(t);
            let rw = b_rewrite(s[0], s[1], s[2])->0;
            lemma_pass_b_props(t);
            lemma_b_rewrite_fresh(s[0], s[1], s[2]);
            let out = seq![rw] + p;
            assert(pass_b(s) == out);
            assert forall|i: int| 0 <= i < out.len() - 2 implies b_rewrite(#[trigger] out[i], out[i + 1], out[i + 2]) is None by {
                if i > 0 {
                    assert(out[i] == p[i - 1] && out[i + 1] == p[i] && out[i + 2] == p[i + 1]);
                }
            }
            if no_merge(s) {
                assert forall|i: int| 0 <= i < t.len() - 1 implies !mergeable(#[trigger] t[i], t[i + 1]) by {
                    assert(t[i] == s[i + 3] && t[i + 1] == s[i + 4]);
                }
                assert forall|i: int| 0 <= i < out.len() - 1 implies !mergeable(#[trigger] out[i], out[i + 1]) by {
                    if i > 0 {
                        assert(out[i] == p[i - 1] && out[i + 1] == p[i]);
                    }
                }
            }
        } else {
            let t = s.skip(1);
            let p = pass_b(t);
            lemma_pass_b_props(t);
            let out = seq![s[0]] + p;
            assert(pass_b(s) == out);
            assert forall|i: int| 0 <= i < out.len() - 2 implies b_rewrite(#[trigger] out[i], out[i + 1], out[i + 2]) is None by {
                if i > 0 {
                    assert(out[i] == p[i - 1] && out[i + 1] == p[i] && out[i + 2] == p[i + 1]);
                } else if b_rewrite(out[0], out[1], out[2]) is Some {
                    // the middle is a plain change, so the pass copied it
                    assert(!b_fresh(out[1]));
                    assert(!b_match(t));
                    let u = t.skip(1);
                    lemma_pass_b_props(u);
                    assert(p == seq![t[0]] + pass_b(u));
                    assert(out[2] == pass_b(u)[0]);
                    assert(!b_fresh(out[2]));
                    assert(!b_match(u));
                    assert(pass_b(u) == seq![u[0]] + pass_b(u.skip(1)));
                    assert(out[1] == s[1] && out[2] == s[2]);
                }
            }
            if no_merge(s) {
                assert forall|i: int| 0 <= i < t.len() - 1 implies !mergeable(#[trigger] t[i], t[i + 1]) by {
                    assert(t[i] == s[i + 1] && t[i + 1] == s[i + 2]);
                }
                assert forall|i: int| 0 <= i < out.len() - 1 implies !mergeable(#[trigger] out[i], out[i + 1]) by {
                    if i > 0 {
                        assert(out[i] == p[i - 1] && out[i + 1] == p[i]);
                    } else if !b_match(t) {
                        assert(out[1] == s[1]);
                    }
                }
            }
        }
    }
}

proof fn lemma_pass_c_props(s: Seq<OpCode>)
    ensures
        pass_c(s).len() <= s.len(),
        s.len() > 0 ==> pass_c(s).len() > 0,
        s.len() > 0 && c_match(s) ==> pass_c(s)[0] is Mul,
        s.len() > 0 && !c_match(s) ==> pass_c(s) == seq![s[0]] + pass_c(s.skip(1)),
        no_c_window(pass_c(s)),
        no_merge(s) ==> no_merge(pass_c(s)),
        no_b_window(s) ==> no_b_window(pass_c(s)),
    decreases s.len(),
{
    if s.len() > 0 {
        let n: int = if c_match(s) { 4 } else { 1 };
        let t = s.skip(n);
        let p = pass_c(t);
        lemma_pass_c_props(t);
        let head = if c_match(s) { c_rewrite(s[0], s[1], s[2], s[3])->0 } else { s[0] };
        let out = seq![head] + p;
        assert(pass_c(s) == out);
        assert forall|i: int| 0 <= i < out.len() - 3 implies c_rewrite(#[trigger] out[i], out[i + 1], out[i + 2], out[i + 3]) is None by {
            if i > 0 {
                assert(out[i] == p[i - 1] && out[i + 1] == p[i] && out[i + 2] == p[i + 1] && out[i + 3] == p[i + 2]);
            } else if c_rewrite(out[0], out[1], out[2], out[3]) is Some {
                assert(!c_match(t));
                let u = t.skip(1);
                lemma_pass_c_props(u);
                assert(!c_match(u));
                let v = u.skip(1);
                lemma_pass_c_props(v);
                assert(!c_match(v));
                assert(out[1] == s[1] && out[2] == s[2] && out[3] == s[3]);
            }
        }
        if no_merge(s) {
            assert forall|i: int| 0 <= i < t.len() - 1 implies !mergeable(#[trigger] t[i], t[i + 1]) by {
                assert(t[i] == s[i + n] && t[i + 1] == s[i + n + 1]);
            }
            assert forall|i: int| 0 <= i < out.len() - 1 implies !mergeable(#[trigger] out[i], out[i + 1]) by {
                if i > 0 {
                    assert(out[i] == p[i - 1] && out[i + 1] == p[i]);
                } else if !c_match(s) && !c_match(t) {
                    assert(out[1] == s[1]);
                }
            }
        }
        if no_b_window(s) {
            assert forall|i: int| 0 <= i < t.len() - 2 implies b_rewrite(#[trigger] t[i], t[i + 1], t[i + 2]) is None by {
                assert(t[i] == s[i + n] && t[i + 1] == s[i + n + 1] && t[i + 2] == s[i + n + 2]);
            }
            assert forall|i: int| 0 <= i < out.len() - 2 implies b_rewrite(#[trigger] out[i], out[i + 1], out[i + 2]) is None by {
                if i > 0 {
                    assert(out[i] == p[i - 1] && out[i + 1] == p[i] && out[i + 2] == p[i + 1]);
                } else if b_rewrite(out[0], out[1], out[2]) is Some {
                    assert(!c_match(s));
                    assert(!c_match(t));
                    let u = t.skip(1);
                    lemma_pass_c_props(u);
                    assert(!c_match(u));
                    assert(out[1] == s[1] && out[2] == s[2]);
                }
            }
        }
    }
}

proof fn lemma_pass_b_identity(s: Seq<OpCode>)
    requires
        no_b_window(s),
    ensures
        pass_b(s) == s,
    decreases s.len(),
{
    if s.len() > 0 {
        let t = s.skip(1);
        assert forall|i: int| 0 <= i < t.len() - 2 implies b_rewrite(#[trigger] t[i], t[i + 1], t[i + 2]) is None by {
            assert(t[i] == s[i + 1] && t[i + 1] == s[i + 2] && t[i + 2] == s[i + 3]);
        }
        lemma_pass_b_identity(t);
        if s.len() >= 3 {
            assert(b_rewrite(s[0], s[1], s[2]) is None);
        }
        assert(seq![s[0]] + t =~= s);
    }
}

proof fn lemma_pass_c_identity(s: Seq<OpCode>)
    requires
        no_c_window(s),
    ensures
        pass_c(s) == s,
    decreases s.len(),
{
    if s.len() > 0 {
        let t = s.skip(1);
        assert forall|i: int| 0 <= i < t.len() - 3 implies c_rewrite(#[trigger] t[i], t[i + 1], t[i + 2], t[i + 3]) is None by {
            assert(t[i] == s[i + 1] && t[i + 1] == s[i + 2] && t[i + 2] == s[i + 3] && t[i + 3] == s[i + 4]);
        }
        lemma_pass_c_identity(t);
        if s.len() >= 4 {
            assert(c_rewrite(s[0], s[1], s[2], s[3]) is None);
        }
        assert(seq![s[0]] + t =~= s);
    }
}

/// Optimizing an already optimized op stream changes nothing.
pub proof fn lemma_optimize_idempotent(s: Seq<OpCode>)
    ensures
        optimized(optimized(s)) == optimized(s),
{
    let a = pass_a(s);
    lemma_pass_a_no_merge(s);
    let b = pass_b(a);
    lemma_pass_b_props(a);
    let c = pass_c(b);
    lemma_pass_c_props(b);
    lemma_pass_a_identity(c);
    lemma_pass_b_identity(c);
    lemma_pass_c_identity(c);
}

fn merge(a: OpCode, b: OpCode) -> (r: Option<OpCode>)
    ensures
        r is Some <==> mergeable(a, b),
        r is Some ==> r->0 == merged(a, b),
{
    match (a, b) {
        (OpCode::Right { count: x }, OpCode::Right { count: y }) => if x as u64 + y as u64
            <= 0xffff_ffff {
            Some(OpCode::Right { count: x + y })
        } else {
            None
        },
        (OpCode::Left { count: x }, OpCode::Left { count: y }) => if x as u64 + y as u64
            <= 0xffff_ffff {
            Some(OpCode::Left { count: x + y })
        } else {
            None
        },
        (OpCode::Inc { count: x, offset: p }, OpCode::Inc { count: y, offset: q }) => if p == 0
            && q == 0 && x as u16 + y as u16 <= 255 {
            Some(OpCode::Inc { count: x + y, offset: 0 })
        } else {
            None
        },
        (OpCode::Dec { count: x, offset: p }, OpCode::Dec { count: y, offset: q }) => if p == 0
            && q == 0 && x as u16 + y as u16 <= 255 {
            Some(OpCode::Dec { count: x + y, offset: 0 })
        } else {
            None
        },
        _ => None,
    }
}

fn consolidate(ops: &mut Vec<OpCode>)
    ensures
        final(ops)@ == pass_a(old(ops)@),
{
    let ghost orig = ops@;
    let len = ops.len();
    let mut read: usize = 0;
    let mut write: usize = 0;
    while read < len
        invariant
            len == ops.len() == orig.len(),
            write <= read <= len,
            ops@.take(write as int) == pass_a(orig.take(read as int)),
            ops@.skip(read as int) == orig.skip(read as int),
        decreases len - read,
    {
        let op = ops[read];
        let ghost prev = ops@;
        proof {
            assert(orig.take(read + 1).drop_last() =~= orig.take(read as int));
            assert(op == orig[read as int]) by {
                assert(ops@.skip(read as int)[0] == orig.skip(read as int)[0]);
            }
        }
        let folded = if write > 0 {
            merge(ops[write - 1], op)
        } else {
            None
        };
        match folded {
            Some(m) => {
                ops[write - 1] = m;
                proof {
                    assert(ops@.take(write as int) =~= pass_a(orig.take(read + 1)));
                }
            },
            None => {
                ops[write] = op;
                write += 1;
                proof {
                    assert(ops@.take(write as int) =~= pass_a(orig.take(read + 1)));
                }
            },
        }
        proof {
            assert forall|k: int| read < k < len implies ops@[k] == orig[k] by {
                assert(prev[k] == prev.skip(read as int)[k - read]);
                assert(orig[k] == orig.skip(read as int)[k - read]);
            }
        }
        read += 1;
        proof {
            assert(ops@.skip(read as int) =~= orig.skip(read as int));
        }
    }
    ops.truncate(write);
    proof {
        assert(orig.take(len as int) =~= orig);
        assert(ops@ =~= ops@.take(write as int));
    }
}

fn rewrite_b(a: OpCode, b: OpCode, c: OpCode) -> (r: Option<OpCode>)
    ensures
        r == b_rewrite(a, b, c),
{
    let plain = match b {
        OpCode::Inc { offset, .. } => offset == 0,
        OpCode::Dec { offset, .. } => offset == 0,
        _ => false,
    };
    if !plain {
        return None;
    }
    match (a, c) {
        (OpCode::JumpIfZero { .. }, OpCode::JumpIfNotZero { .. }) => Some(OpCode::SetZero),
        (OpCode::Right { count: n }, OpCode::Left { count: m }) => if n == m && 0 < n && n
            <= 0x7fff_ffff {
            Some(shift(b, n as i32))
        } else {
            None
        },
        (OpCode::Left { count: n }, OpCode::Right { count: m }) => if n == m && 0 < n && n
            <= 0x7fff_ffff {
            Some(shift(b, -(n as i32)))
        } else {
            None
        },
        _ => None,
    }
}

fn shift(op: OpCode, offset: i32) -> (r: OpCode)
    ensures
        r == with_offset(op, offset),
{
    match op {
        OpCode::Inc { count, .. } => OpCode::Inc { count, offset },
        OpCode::Dec { count, .. } => OpCode::Dec { count, offset },
        _ => op,
    }
}

fn clear_and_offset(ops: &mut Vec<OpCode>)
    ensures
        final(ops)@ == pass_b(old(ops)@),
{
    let ghost orig = ops@;
    let len = ops.len();
    let mut read: usize = 0;
    let mut write: usize = 0;
    proof {
        assert(orig.skip(0) =~= orig);
        assert(ops@.take(0) + pass_b(orig) =~= pass_b(orig));
    }
    while read < len
        invariant
            len == ops.len() == orig.len(),
            write <= read <= len,
            ops@.take(write as int) + pass_b(orig.skip(read as int)) == pass_b(orig),
            ops@.skip(read as int) == orig.skip(read as int),
        decreases len - read,
    {
        let ghost prev = ops@;
        let ghost t = orig.skip(read as int);
        proof {
            assert forall|k: int| 0 <= k < t.len() implies ops@[read + k] == t[k] by {
                assert(ops@.skip(read as int)[k] == t[k]);
            }
        }
        let found = if len - read >= 3 {
            rewrite_b(ops[read], ops[read + 1], ops[read + 2])
        } else {
            None
        };
        let step: usize;
        match found {
            Some(op) => {
                proof {
                    assert(t.skip(3) =~= orig.skip(read + 3));
                }
                ops[write] = op;
                step = 3;
            },
            None => {
                proof {
                    assert(t.skip(1) =~= orig.skip(read + 1));
                }
                ops[write] = ops[read];
                step = 1;
            },
        }
        proof {
            assert(ops@.take(write + 1) =~= prev.take(write as int).push(ops@[write as int]));
            assert(ops@.take(write + 1) + pass_b(orig.skip(read + step)) =~= prev.take(
                write as int,
            ) + pass_b(t));
            assert forall|k: int| read < k < len implies ops@[k] == orig[k] by {
                assert(prev[k] == prev.skip(read as int)[k - read]);
                assert(orig[k] == orig.skip(read as int)[k - read]);
            }
        }
        write += 1;
        read += step;
        proof {
            assert(ops@.skip(read as int) =~= orig.skip(read as int));
        }
    }
    ops.truncate(write);
    proof {
        assert(orig.skip(len as int) =~= seq![]);
        assert(ops@ =~= ops@.take(write as int) + pass_b(orig.skip(len as int)));
    }
}

fn rewrite_c(a: OpCode, b: OpCode, c: OpCode, d: OpCode) -> (r: Option<OpCode>)
    ensures
        r == c_rewrite(a, b, c, d),
{
    match (a, b, c, d) {
        (
            OpCode::JumpIfZero { .. },
            OpCode::Inc { count, offset },
            OpCode::Dec { count: 1, offset: 0 },
            OpCode::JumpIfNotZero { .. },
        ) => Some(OpCode::Mul { factor: count, offset }),
        _ => None,
    }
}

fn multiply_move(ops: &mut Vec<OpCode>)
    ensures
        final(ops)@ == pass_c(old(ops)@),
{
    let ghost orig = ops@;
    let len = ops.len();
    let mut read: usize = 0;
    let mut write: usize = 0;
    proof {
        assert(orig.skip(0) =~= orig);
        assert(ops@.take(0) + pass_c(orig) =~= pass_c(orig));
    }
    while read < len
        invariant
            len == ops.len() == orig.len(),
            write <= read <= len,
            ops@.take(write as int) + pass_c(orig.skip(read as int)) == pass_c(orig),
            ops@.skip(read as int) == orig.skip(read as int),
        decreases len - read,
    {
        let ghost prev = ops@;
        let ghost t = orig.skip(read as int);
        proof {
            assert forall|k: int| 0 <= k < t.len() implies ops@[read + k] == t[k] by {
                assert(ops@.skip(read as int)[k] == t[k]);
            }
        }
        let found = if len - read >= 4 {
            rewrite_c(ops[read], ops[read + 1], ops[read + 2], ops[read + 3])
        } else {
            None
        };
        let step: usize;
        match found {
            Some(op) => {
                proof {
                    assert(t.skip(4) =~= orig.skip(read + 4));
                }
                ops[write] = op;
                step = 4;
            },
            None => {
                proof {
                    assert(t.skip(1) =~= orig.skip(read + 1));
                }
                ops[write] = ops[read];
                step = 1;
            },
        }
        proof {
            assert(ops@.take(write + 1) =~= prev.take(write as int).push(ops@[write as int]));
            assert(ops@.take(write + 1) + pass_c(orig.skip(read + step)) =~= prev.take(
                write as int,
            ) + pass_c(t));
            assert forall|k: int| read < k < len implies ops@[k] == orig[k] by {
                assert(prev[k] == prev.skip(read as int)[k - read]);
                assert(orig[k] == orig.skip(read as int)[k - read]);
            }
        }
        write += 1;
        read += step;
        proof {
            assert(ops@.skip(read as int) =~= orig.skip(read as int));
        }
    }
    ops.truncate(write);
    proof {
        assert(orig.skip(len as int) =~= seq![]);
        assert(ops@ =~= ops@.take(write as int) + pass_c(orig.skip(len as int)));
    }
}

/// Rewrites the op stream with the three peephole passes: run-length
/// consolidation, then clear-cell and offset-delta, then multiply-move.
pub fn optimize(ops: &mut Vec<OpCode>)
    ensures
        final(ops)@ == optimized(old(ops)@),
{
    consolidate(ops);
    clear_and_offset(ops);
    multiply_move(ops);
}

/// Parses and optimizes source bytes into an op stream.
pub fn compile(code: &[u8]) -> (ops: Vec<OpCode>)
    ensures
        ops@ == optimized(parse(code@)),
{
    let mut ops = compile_impl(code);
    optimize(&mut ops);
    ops
}

} // verus!
