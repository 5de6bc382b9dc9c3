//! Jump resolution for the op stream and an interpreter over it.
use vstd::prelude::*;

use crate::compile::OpCode;
use crate::{Printer, Scanner};

verus! {

/// Brackets that do not pair up.
#[derive(Debug, Clone, Copy, PartialEq, Eq, Structural)]
pub enum BracketError {
    /// A `]` met with no `[` open before it.
    UnmatchedClose { index: usize },
    /// The outermost `[` that no `]` closes.
    UnmatchedOpen { index: usize },
}

/// A `[`.
pub open spec fn is_open(op: OpCode) -> bool {
    op is JumpIfZero
}

/// A `]`.
pub open spec fn is_close(op: OpCode) -> bool {
    op is JumpIfNotZero
}

/// Bracket nesting depth before index `k`: opens minus closes in `s[0..k]`.
pub open spec fn depth(s: Seq<OpCode>, k: int) -> int
    decreases k,
{
    if k <= 0 {
        0
    } else {
        depth(s, k - 1) + if is_open(s[k - 1]) {
            1int
        } else if is_close(s[k - 1]) {
            -1int
        } else {
            0int
        }
    }
}

/// The `[` at `i` and the `]` at `j` enclose a balanced stretch: `j` returns
/// to the depth of `i`, and no `[` between them opens at that depth again.
pub open spec fn is_pair(s: Seq<OpCode>, i: int, j: int) -> bool {
    &&& 0 <= i < j < s.len()
    &&& is_open(s[i])
    &&& is_close(s[j])
    &&& depth(s, j) == depth(s, i) + 1
    &&& forall|k: int| i < k < j && is_open(#[trigger] s[k]) ==> depth(s, k) != depth(s, i)
}

/// No `]` up to index `stop` closes more than was opened.
pub open spec fn closes_matched(s: Seq<OpCode>, stop: int) -> bool {
    forall|p: int| 0 <= p <= stop ==> #[trigger] depth(s, p) >= 0
}

/// The `[` at `i` is closed by a `]` before index `stop`.
pub open spec fn closed_before(s: Seq<OpCode>, i: int, stop: int) -> bool {
    exists|j: int| j < stop && #[trigger] is_pair(s, i, j)
}

/// `t` is `s` with every pair whose `]` stands before `stop` resolved: each
/// bracket of the pair targets the op after its partner. All else is unchanged.
pub open spec fn back_patched(s: Seq<OpCode>, t: Seq<OpCode>, stop: int) -> bool {
    &&& t.len() == s.len()
    &&& forall|p: int|
        0 <= p < s.len() && !is_open(s[p]) && !is_close(s[p]) ==> #[trigger] t[p] == s[p]
    &&& forall|p: int| stop <= p < s.len() ==> #[trigger] t[p] == s[p]
    &&& forall|i: int, j: int|
        j < stop && #[trigger] is_pair(s, i, j) ==> t[i] == OpCode::JumpIfZero {
            target: (j + 1) as usize,
        } && t[j] == OpCode::JumpIfNotZero { target: (i + 1) as usize }
    &&& forall|j: int| 0 <= j < stop && is_close(#[trigger] s[j]) ==> exists|i: int| is_pair(s, i, j)
    &&& forall|i: int|
        0 <= i < s.len() && is_open(s[i]) && !closed_before(s, i, stop) ==> #[trigger] t[i] == s[i]
}

/// The `]` at `index` is the first that closes more than was opened.
pub open spec fn first_unmatched_close(s: Seq<OpCode>, index: int) -> bool {
    &&& 0 <= index < s.len()
    &&& is_close(s[index])
    &&& depth(s, index) == 0
    &&& closes_matched(s, index)
}

/// Every `[` of `s` is closed by a `]`.
pub open spec fn all_closed(s: Seq<OpCode>) -> bool {
    forall|i: int| 0 <= i < s.len() && is_open(#[trigger] s[i]) ==> closed_before(s, i, s.len() as int)
}

/// Every `[` and every `]` of `s` has its partner.
pub open spec fn brackets_paired(s: Seq<OpCode>) -> bool {
    closes_matched(s, s.len() as int) && depth(s, s.len() as int) == 0 && all_closed(s)
}

/// Every `]` of `s` is matched, but the `[` at `index`, opened at depth 0,
/// is never closed.
pub open spec fn outer_unclosed_open(s: Seq<OpCode>, index: int) -> bool {
    &&& closes_matched(s, s.len() as int)
    &&& depth(s, s.len() as int) > 0
    &&& open_at(s, index, 0, s.len() as int)
    &&& !closed_before(s, index, s.len() as int)
}

/// The `[` at `i` is the last one opened at depth `d` before index `k`.
pub open spec fn open_at(s: Seq<OpCode>, i: int, d: int, k: int) -> bool {
    &&& 0 <= i < k
    &&& is_open(s[i])
    &&& depth(s, i) == d
    &&& forall|q: int| i < q < k && is_open(#[trigger] s[q]) ==> depth(s, q) != d
}

/// Each `[` before `k` that is not closed before `k` stands on `stack` at the
/// index of its depth.
#[verifier::opaque]
pub open spec fn unclosed_on_stack(s: Seq<OpCode>, k: int, stack: Seq<usize>) -> bool {
    forall|i: int|
        0 <= i < k && is_open(#[trigger] s[i]) && !closed_before(s, i, k) ==> 0 <= depth(s, i)
            < stack.len() && stack[depth(s, i)] == i
}

/// One step of `back_patch` keeps each `[` not yet closed on the stack of
/// open brackets, at the index of its depth.
proof fn lemma_unclosed_stay_open(s: Seq<OpCode>, k: int, before: Seq<usize>, after: Seq<usize>)
    requires
        0 <= k < s.len() <= usize::MAX,
        before.len() == depth(s, k),
        unclosed_on_stack(s, k, before),
        is_open(s[k]) ==> after == before.push(k as usize),
        is_close(s[k]) ==> before.len() > 0 && after == before.drop_last() && is_pair(
            s,
            before.last() as int,
            k,
        ),
        !is_open(s[k]) && !is_close(s[k]) ==> after == before,
    ensures
        unclosed_on_stack(s, k + 1, after),
{
    reveal(unclosed_on_stack);
    assert forall|i: int|
        0 <= i < k + 1 && is_open(#[trigger] s[i]) && !closed_before(s, i, k + 1) implies 0 <= depth(
        s,
        i,
    ) < after.len() && after[depth(s, i)] == i by {
        if i < k {
            if closed_before(s, i, k) {
                let j = choose|j: int| j < k && #[trigger] is_pair(s, i, j);
                assert(j < k + 1 && is_pair(s, i, j));
            }
            assert(before[depth(s, i)] == i);
            if is_close(s[k]) && depth(s, i) == before.len() - 1 {
                assert(is_pair(s, i, k));
                assert(closed_before(s, i, k + 1));
            }
            assert(after[depth(s, i)] == before[depth(s, i)]);
        } else {
            assert(is_open(s[k]));
            assert(after[depth(s, k)] == k as usize);
        }
    }
}

/// Resolves jump targets: each `[` and its `]` target the op after the other.
/// Stops at the first `]` that has no `[` open before it and reports its index;
/// pairs closed before it are resolved, the rest is left as it was. Where every
/// `]` is matched but some `[` is not, all pairs are resolved and the outermost
/// unclosed `[` is reported.
pub fn back_patch(ops: &mut Vec<OpCode>) -> (r: Result<(), BracketError>)
    ensures
        r is Ok ==> brackets_paired(old(ops)@) && back_patched(
            old(ops)@,
            final(ops)@,
            old(ops)@.len() as int,
        ),
        r matches Err(BracketError::UnmatchedOpen { index }) ==> outer_unclosed_open(
            old(ops)@,
            index as int,
        ) && back_patched(old(ops)@, final(ops)@, old(ops)@.len() as int),
        r matches Err(BracketError::UnmatchedClose { index }) ==> first_unmatched_close(
            old(ops)@,
            index as int,
        ) && back_patched(old(ops)@, final(ops)@, index as int),
{
    let ghost s = ops@;
    let len = ops.len();
    let mut open: Vec<usize> = Vec::new();
    let mut current: usize = 0;
    proof {
        reveal(unclosed_on_stack);
    }
    while current < len
        invariant
            s == old(ops)@,
            len == s.len() == ops@.len(),
            current <= len,
            open@.len() == depth(s, current as int),
            closes_matched(s, current as int),
            forall|d: int|
                0 <= d < open@.len() ==> open_at(s, #[trigger] open@[d] as int, d, current as int),
            forall|d: int, j: int|
                0 <= d < open@.len() && 0 <= j < current ==> !#[trigger] is_pair(s, open@[d] as int, j),
            back_patched(s, ops@, current as int),
            unclosed_on_stack(s, current as int, open@),
        decreases len - current,
    {
        let ghost t = ops@;
        let ghost before = open@;
        let ghost k = current as int;
        assert(depth(s, k + 1) == depth(s, k) + if is_open(s[k]) {
            1int
        } else if is_close(s[k]) {
            -1int
        } else {
            0int
        });
        assert(ops@[k] == s[k]);
        let op = ops[current];
        match op {
            OpCode::JumpIfZero { .. } => {
                let ghost old_open = open@;
                open.push(current);
                proof {
                    assert forall|d: int|
                        0 <= d < open@.len() implies open_at(
                        s,
                        #[trigger] open@[d] as int,
                        d,
                        k + 1,
                    ) by {
                        if d < old_open.len() {
                            assert(open_at(s, old_open[d] as int, d, k));
                        }
                    }
                    assert forall|i: int|
                        0 <= i < s.len() && is_open(s[i]) && !closed_before(
                            s,
                            i,
                            k + 1,
                        ) implies #[trigger] t[i] == s[i] by {
                        if closed_before(s, i, k) {
                            let j = choose|j: int| j < k && #[trigger] is_pair(s, i, j);
                            assert(j < k + 1 && is_pair(s, i, j));
                        }
                    }
                    assert(closes_matched(s, k + 1)) by {
                        assert forall|p: int| 0 <= p <= k + 1 implies #[trigger] depth(s, p)
                            >= 0 by {
                            if p <= k {
                                assert(depth(s, p) >= 0);
                            }
                        }
                    }
                }
            },
            OpCode::JumpIfNotZero { .. } => {
                if open.len() == 0 {
                    return Err(BracketError::UnmatchedClose { index: current });
                }
                let ghost old_open = open@;
                let top = open.pop().unwrap();
                let ghost p = top as int;
                let ghost m = old_open.len() as int;
                proof {
                    assert(old_open[m - 1] == top);
                    assert(open_at(s, p, m - 1, k));
                    assert(is_pair(s, p, k));
                    assert forall|i: int| #[trigger] is_pair(s, i, k) implies i == p by {
                        if i < p {
                            assert(is_open(s[p]));
                        } else if i > p {
                            assert(is_open(s[i]));
                        }
                    }
                }
                ops[current] = OpCode::JumpIfNotZero { target: top + 1 };
                ops[top] = OpCode::JumpIfZero { target: current + 1 };
                proof {
                    assert forall|d: int|
                        0 <= d < open@.len() implies open_at(
                        s,
                        #[trigger] open@[d] as int,
                        d,
                        k + 1,
                    ) by {
                        assert(open@[d] == old_open[d]);
                        assert(open_at(s, old_open[d] as int, d, k));
                    }
                    assert forall|d: int, j: int|
                        0 <= d < open@.len() && 0 <= j < k + 1 implies !#[trigger] is_pair(s, open@[d] as int, j) by {
                        assert(open@[d] == old_open[d]);
                        assert(open_at(s, old_open[d] as int, d, k));
                    }
                    assert forall|i: int, j: int|
                        j < k + 1 && #[trigger] is_pair(s, i, j) implies ops@[i]
                        == OpCode::JumpIfZero { target: (j + 1) as usize } && ops@[j]
                        == OpCode::JumpIfNotZero { target: (i + 1) as usize } by {
                        if j < k {
                            assert(old_open[m - 1] == top);
                            assert(!is_pair(s, old_open[m - 1] as int, j));
                        }
                    }
                    assert forall|j: int|
                        0 <= j < k + 1 && is_close(#[trigger] s[j]) implies exists|i: int|
                        is_pair(s, i, j) by {
                        if j == k {
                            assert(is_pair(s, p, k));
                        }
                    }
                    assert forall|i: int|
                        0 <= i < s.len() && is_open(s[i]) && !closed_before(
                            s,
                            i,
                            k + 1,
                        ) implies #[trigger] ops@[i] == s[i] by {
                        if i == p {
                            assert(is_pair(s, p, k));
                        } else if closed_before(s, i, k) {
                            let j = choose|j: int| j < k && #[trigger] is_pair(s, i, j);
                            assert(j < k + 1 && is_pair(s, i, j));
                        }
                    }
                    assert(closes_matched(s, k + 1)) by {
                        assert forall|q: int| 0 <= q <= k + 1 implies #[trigger] depth(s, q)
                            >= 0 by {
                            if q <= k {
                                assert(depth(s, q) >= 0);
                            }
                        }
                    }
                }
            },
            _ => {
                proof {
                    assert forall|d: int|
                        0 <= d < open@.len() implies open_at(
                        s,
                        #[trigger] open@[d] as int,
                        d,
                        k + 1,
                    ) by {
                        assert(open_at(s, open@[d] as int, d, k));
                    }
                    assert forall|i: int|
                        0 <= i < s.len() && is_open(s[i]) && !closed_before(
                            s,
                            i,
                            k + 1,
                        ) implies #[trigger] t[i] == s[i] by {
                        if closed_before(s, i, k) {
                            let j = choose|j: int| j < k && #[trigger] is_pair(s, i, j);
                            assert(j < k + 1 && is_pair(s, i, j));
                        }
                    }
                    assert(closes_matched(s, k + 1)) by {
                        assert forall|q: int| 0 <= q <= k + 1 implies #[trigger] depth(s, q)
                            >= 0 by {
                            if q <= k {
                                assert(depth(s, q) >= 0);
                            }
                        }
                    }
                }
            },
        }
        proof {
            lemma_unclosed_stay_open(s, k, before, open@);
        }
        current += 1;
    }
    if open.len() > 0 {
        proof {
            assert(open_at(s, open@[0] as int, 0, len as int));
            if closed_before(s, open@[0] as int, len as int) {
                let j = choose|j: int| j < len && #[trigger] is_pair(s, open@[0] as int, j);
                assert(!is_pair(s, open@[0] as int, j));
            }
        }
        return Err(BracketError::UnmatchedOpen { index: open[0] });
    }
    proof {
        reveal(unclosed_on_stack);
        assert forall|i: int| 0 <= i < s.len() && is_open(#[trigger] s[i]) implies closed_before(
            s,
            i,
            s.len() as int,
        ) by {
            assert(depth(s, i) >= 0);
        }
    }
    Ok(())
}

/// Depth moves by at most one per op, so to climb past `v` it must pass a
/// `[` that opens at depth `v`.
proof fn lemma_depth_climbs(s: Seq<OpCode>, a: int, b: int, v: int) -> (q: int)
    requires
        0 <= a <= b <= s.len(),
        depth(s, a) <= v < depth(s, b),
    ensures
        a <= q < b,
        is_open(s[q]),
        depth(s, q) == v,
    decreases b - a,
{
    if depth(s, b - 1) <= v {
        b - 1
    } else {
        lemma_depth_climbs(s, a, b - 1, v)
    }
}

/// A `]` has at most one `[` paired with it, and a `[` at most one `]`.
pub proof fn lemma_pair_unique(s: Seq<OpCode>, i: int, j: int, i2: int, j2: int)
    requires
        is_pair(s, i, j),
        is_pair(s, i2, j2),
        i == i2 || j == j2,
    ensures
        i == i2 && j == j2,
{
    if j == j2 {
        if i < i2 {
            assert(is_open(s[i2]));
        } else if i2 < i {
            assert(is_open(s[i]));
        }
    } else {
        let (lo, hi) = if j < j2 { (j, j2) } else { (j2, j) };
        assert(depth(s, lo + 1) == depth(s, i));
        let q = lemma_depth_climbs(s, lo + 1, hi, depth(s, i));
        assert(is_open(s[q]));
    }
}

/// With every `]` matched, resolution has one outcome.
pub proof fn lemma_back_patched_unique(s: Seq<OpCode>, t1: Seq<OpCode>, t2: Seq<OpCode>)
    requires
        back_patched(s, t1, s.len() as int),
        back_patched(s, t2, s.len() as int),
    ensures
        t1 == t2,
{
    assert forall|p: int| 0 <= p < s.len() implies t1[p] == t2[p] by {
        if is_close(s[p]) {
            let i = choose|i: int| is_pair(s, i, p);
            assert(is_pair(s, i, p));
        } else if is_open(s[p]) && closed_before(s, p, s.len() as int) {
            let j = choose|j: int| j < s.len() && #[trigger] is_pair(s, p, j);
            assert(is_pair(s, p, j));
        }
    }
    assert(t1 =~= t2);
}

/// The target of a jump op, as an index.
pub open spec fn target_of(op: OpCode) -> int {
    match op {
        OpCode::JumpIfZero { target } => target as int,
        OpCode::JumpIfNotZero { target } => target as int,
        _ => 0,
    }
}

/// Back-patch symmetry: for every resolved pair, the op just before the
/// target of one bracket is the other bracket, and it targets the op just
/// after the first.
pub proof fn lemma_back_patch_symmetry(s: Seq<OpCode>, t: Seq<OpCode>, stop: int, i: int, j: int)
    requires
        s.len() <= usize::MAX,
        back_patched(s, t, stop),
        j < stop,
        is_pair(s, i, j),
    ensures
        t[i] is JumpIfZero && t[j] is JumpIfNotZero,
        1 <= target_of(t[i]) && target_of(t[i]) - 1 == j && t[target_of(t[i]) - 1] == t[j],
        1 <= target_of(t[j]) && target_of(t[j]) - 1 == i && t[target_of(t[j]) - 1] == t[i],
{
}

/// The whole state of a run: instruction pointer, cursor, tape, the output
/// so far and the input not yet read.
pub struct Config {
    pub ip: int,
    pub cell: int,
    pub tape: Seq<u8>,
    pub output: Seq<u8>,
    pub input: Seq<u8>,
}

/// Why a run stopped.
#[derive(Debug, Clone, Copy, PartialEq, Eq, Structural)]
pub enum Stop {
    /// The instruction pointer left the op stream: the program is done.
    Halted,
    /// An `Input` op found no queued input; it runs once input is queued.
    NeedInput,
    /// An op would have moved the cursor off the tape or touched a cell off it.
    OutOfBounds,
    /// The step budget ran out.
    OutOfFuel,
}

/// The outcome of one step.
pub enum Step {
    Next(Config),
    Done(Stop),
}

pub open spec fn on_tape(c: Config, idx: int) -> bool {
    0 <= idx < c.tape.len()
}

/// `c` with the tape replaced and the instruction pointer advanced.
pub open spec fn advance(c: Config, tape: Seq<u8>) -> Config {
    Config { ip: c.ip + 1, cell: c.cell, tape, output: c.output, input: c.input }
}

/// `c` with the instruction pointer set to `ip`.
pub open spec fn jump(c: Config, ip: int) -> Config {
    Config { ip, cell: c.cell, tape: c.tape, output: c.output, input: c.input }
}

/// The cursor moved to `cell`, which must stay on the tape.
pub open spec fn move_to(c: Config, cell: int) -> Step {
    if on_tape(c, cell) {
        Step::Next(Config { ip: c.ip + 1, cell, tape: c.tape, output: c.output, input: c.input })
    } else {
        Step::Done(Stop::OutOfBounds)
    }
}

/// One step of the op at `c.ip`, with `u8` wrapping cell arithmetic.
pub open spec fn step(ops: Seq<OpCode>, c: Config) -> Step
    recommends
        0 <= c.ip < ops.len(),
{
    let here = on_tape(c, c.cell);
    match ops[c.ip] {
        OpCode::Right { count } => move_to(c, c.cell + count),
        OpCode::Left { count } => move_to(c, c.cell - count),
        OpCode::Inc { count, offset } => {
            let idx = c.cell + offset;
            if on_tape(c, idx) {
                Step::Next(advance(c, c.tape.update(idx, ((c.tape[idx] + count) % 256) as u8)))
            } else {
                Step::Done(Stop::OutOfBounds)
            }
        },
        OpCode::Dec { count, offset } => {
            let idx = c.cell + offset;
            if on_tape(c, idx) {
                Step::Next(
                    advance(c, c.tape.update(idx, ((c.tape[idx] + 256 - count) % 256) as u8)),
                )
            } else {
                Step::Done(Stop::OutOfBounds)
            }
        },
        OpCode::Output => if here {
            Step::Next(
                Config {
                    ip: c.ip + 1,
                    cell: c.cell,
                    tape: c.tape,
                    output: c.output.push(c.tape[c.cell]),
                    input: c.input,
                },
            )
        } else {
            Step::Done(Stop::OutOfBounds)
        },
        OpCode::Input => if !here {
            Step::Done(Stop::OutOfBounds)
        } else if c.input.len() == 0 {
            Step::Done(Stop::NeedInput)
        } else {
            Step::Next(
                Config {
                    ip: c.ip + 1,
                    cell: c.cell,
                    tape: c.tape.update(c.cell, c.input[0]),
                    output: c.output,
                    input: c.input.drop_first(),
                },
            )
        },
        OpCode::JumpIfZero { target } => if !here {
            Step::Done(Stop::OutOfBounds)
        } else if c.tape[c.cell] == 0 {
            Step::Next(jump(c, target as int))
        } else {
            Step::Next(jump(c, c.ip + 1))
        },
        OpCode::JumpIfNotZero { target } => if !here {
            Step::Done(Stop::OutOfBounds)
        } else if c.tape[c.cell] != 0 {
            Step::Next(jump(c, target as int))
        } else {
            Step::Next(jump(c, c.ip + 1))
        },
        OpCode::SetZero => if here {
            Step::Next(advance(c, c.tape.update(c.cell, 0)))
        } else {
            Step::Done(Stop::OutOfBounds)
        },
        OpCode::Mul { factor, offset } => {
            let idx = c.cell + offset;
            if here && on_tape(c, idx) {
                let sum = ((c.tape[idx] + c.tape[c.cell] * factor) % 256) as u8;
                Step::Next(advance(c, c.tape.update(idx, sum).update(c.cell, 0)))
            } else {
                Step::Done(Stop::OutOfBounds)
            }
        },
    }
}

/// Runs at most `fuel` steps from `c`: the configuration reached and why it stopped.
pub open spec fn run_for(ops: Seq<OpCode>, c: Config, fuel: nat) -> (Config, Stop)
    decreases fuel,
{
    if !(0 <= c.ip < ops.len()) {
        (c, Stop::Halted)
    } else if fuel == 0 {
        (c, Stop::OutOfFuel)
    } else {
        match step(ops, c) {
            Step::Next(next) => run_for(ops, next, (fuel - 1) as nat),
            Step::Done(stop) => (c, stop),
        }
    }
}

/// From `c`, exactly `n` steps are taken without stopping and lead to `d`.
pub open spec fn reaches(ops: Seq<OpCode>, c: Config, d: Config, n: nat) -> bool
    decreases n,
{
    if n == 0 {
        c == d
    } else {
        &&& 0 <= c.ip < ops.len()
        &&& match step(ops, c) {
            Step::Next(next) => reaches(ops, next, d, (n - 1) as nat),
            Step::Done(_) => false,
        }
    }
}

/// A run that passes through `d` after `n` steps ends where a run from `d` ends.
pub proof fn lemma_reaches_then_runs(ops: Seq<OpCode>, c: Config, d: Config, n: nat, m: nat)
    requires
        reaches(ops, c, d, n),
    ensures
        run_for(ops, c, n + m) == run_for(ops, d, m),
    decreases n,
{
    if n > 0 {
        match step(ops, c) {
            Step::Next(next) => {
                lemma_reaches_then_runs(ops, next, d, (n - 1) as nat, m);
                assert((n + m - 1) as nat == ((n - 1) as nat + m) as nat);
            },
            Step::Done(_) => {},
        }
    }
}

/// `c` with the current cell cleared and the instruction pointer at `ip`.
pub open spec fn cleared(c: Config, ip: int) -> Config {
    Config { ip, cell: c.cell, tape: c.tape.update(c.cell, 0), output: c.output, input: c.input }
}

/// The body of a `[-]` or `[+]` loop: the change at `i + 1`, the closing
/// jump back to it at `i + 2`.
pub open spec fn clear_body(ops: Seq<OpCode>, i: int) -> bool {
    &&& 0 <= i
    &&& i + 3 <= ops.len() <= usize::MAX
    &&& (ops[i + 1] == OpCode::Dec { count: 1, offset: 0 } || ops[i + 1] == OpCode::Inc { count: 1, offset: 0 })
    &&& ops[i + 2] == OpCode::JumpIfNotZero { target: (i + 1) as usize }
}

proof fn lemma_clear_body_runs(ops: Seq<OpCode>, c: Config, i: int) -> (n: nat)
    requires
        clear_body(ops, i),
        c.ip == i + 1,
        on_tape(c, c.cell),
        c.tape[c.cell] != 0,
    ensures
        reaches(ops, c, cleared(c, i + 3), n),
    decreases if ops[i + 1] is Dec { c.tape[c.cell] as int } else { 256 - c.tape[c.cell] },
{
    let v = c.tape[c.cell] as int;
    let w: u8 = if ops[i + 1] is Dec { ((v + 256 - 1) % 256) as u8 } else { ((v + 1) % 256) as u8 };
    let c1 = advance(c, c.tape.update(c.cell, w));
    assert(step(ops, c) == Step::Next(c1));
    let ip2 = if w != 0 { i + 1 } else { i + 3 };
    let c2 = jump(c1, ip2);
    assert(step(ops, c1) == Step::Next(c2));
    assert(c2.tape.update(c2.cell, 0) =~= c.tape.update(c.cell, 0));
    if w != 0 {
        let n = lemma_clear_body_runs(ops, c2, i);
        assert(cleared(c2, i + 3) == cleared(c, i + 3));
        assert(reaches(ops, c1, cleared(c, i + 3), n + 1));
        assert(reaches(ops, c, cleared(c, i + 3), n + 2));
        n + 2
    } else {
        assert(c2.tape =~= c.tape.update(c.cell, 0));
        assert(c2 == cleared(c, i + 3));
        assert(reaches(ops, c2, cleared(c, i + 3), 0));
        assert(reaches(ops, c1, cleared(c, i + 3), 1));
        assert(reaches(ops, c, cleared(c, i + 3), 2));
        2
    }
}

/// A resolved `[-]` or `[+]` loop entered with the cursor on the tape runs,
/// in the returned number of steps and without stopping, to the op after the
/// loop with only the current cell changed, to 0: the configuration that one
/// `SetZero` step gives, but for the instruction pointer.
pub proof fn lemma_clear_loop_is_set_zero(
    ops: Seq<OpCode>,
    c: Config,
    i: int,
    other: Seq<OpCode>,
    j: int,
) -> (n: nat)
    requires
        clear_body(ops, i),
        ops[i] == (OpCode::JumpIfZero { target: (i + 3) as usize }),
        c.ip == i,
        on_tape(c, c.cell),
        0 <= j < other.len(),
        other[j] == OpCode::SetZero,
    ensures
        reaches(ops, c, cleared(c, i + 3), n),
        step(other, jump(c, j)) == Step::Next(cleared(c, j + 1)),
{
    assert(c.tape.update(c.cell, 0) =~= cleared(c, j + 1).tape);
    if c.tape[c.cell] == 0 {
        assert(c.tape.update(c.cell, 0) =~= c.tape);
        assert(step(ops, c) == Step::Next(cleared(c, i + 3)));
        assert(reaches(ops, cleared(c, i + 3), cleared(c, i + 3), 0));
        assert(reaches(ops, c, cleared(c, i + 3), 1));
        1
    } else {
        let c1 = jump(c, i + 1);
        assert(step(ops, c) == Step::Next(c1));
        let n = lemma_clear_body_runs(ops, c1, i);
        assert(cleared(c1, i + 3) == cleared(c, i + 3));
        assert(reaches(ops, c, cleared(c, i + 3), n + 1));
        n + 1
    }
}

/// A jump target once the three ops at `i..i + 3` have become one.
pub open spec fn shift_target(t: int, i: int) -> int {
    if t <= i {
        t
    } else {
        t - 2
    }
}

/// `op` with its jump target shifted as `shift_target` says.
pub open spec fn retarget(op: OpCode, i: int) -> OpCode {
    match op {
        OpCode::JumpIfZero { target } => OpCode::JumpIfZero {
            target: shift_target(target as int, i) as usize,
        },
        OpCode::JumpIfNotZero { target } => OpCode::JumpIfNotZero {
            target: shift_target(target as int, i) as usize,
        },
        _ => op,
    }
}

/// `ops` holds a resolved `[-]` or `[+]` loop at `i` that nothing else jumps
/// into, and `q` is `ops` with that loop replaced by one `SetZero`.
pub open spec fn clear_replaced(ops: Seq<OpCode>, q: Seq<OpCode>, i: int) -> bool {
    &&& clear_body(ops, i)
    &&& ops[i] == OpCode::JumpIfZero { target: (i + 3) as usize }
    &&& q.len() + 2 == ops.len()
    &&& q[i] == OpCode::SetZero
    &&& forall|k: int| 0 <= k < i ==> #[trigger] q[k] == retarget(ops[k], i)
    &&& forall|k: int| i + 3 <= k < ops.len() ==> #[trigger] q[k - 2] == retarget(ops[k], i)
    &&& forall|k: int|
        0 <= k < ops.len() && !(i <= k < i + 3) && (ops[k] is JumpIfZero || ops[k] is JumpIfNotZero)
            ==> target_of(#[trigger] ops[k]) != i + 1 && target_of(ops[k]) != i + 2
}

/// Two configurations alike but for the instruction pointer, which `shift_target` maps.
pub open spec fn related(a: Config, b: Config, i: int) -> bool {
    &&& 0 <= a.ip
    &&& a.ip != i + 1
    &&& a.ip != i + 2
    &&& b.ip == shift_target(a.ip, i)
    &&& b.cell == a.cell
    &&& b.tape == a.tape
    &&& b.output == a.output
    &&& b.input == a.input
}

pub open spec fn next_of(s: Step) -> Config {
    match s {
        Step::Next(c) => c,
        Step::Done(_) => arbitrary(),
    }
}

proof fn lemma_related_step(ops: Seq<OpCode>, q: Seq<OpCode>, i: int, a: Config, b: Config)
    requires
        clear_replaced(ops, q, i),
        related(a, b, i),
        0 <= a.ip < ops.len(),
        !(i <= a.ip < i + 3),
    ensures
        0 <= b.ip < q.len(),
        step(ops, a) is Done ==> step(q, b) == step(ops, a),
        step(ops, a) is Next ==> step(q, b) is Next && related(
            next_of(step(ops, a)),
            next_of(step(q, b)),
            i,
        ),
{
    let p = a.ip;
    if p < i {
        assert(q[p] == retarget(ops[p], i));
    } else {
        assert(q[p - 2] == retarget(ops[p], i));
    }
    if ops[p] is JumpIfZero || ops[p] is JumpIfNotZero {
        assert(target_of(ops[p]) != i + 1 && target_of(ops[p]) != i + 2);
    }
}

/// Fewer steps than a stretch that is taken without stopping leave the run out of fuel.
proof fn lemma_reaches_needs_fuel(ops: Seq<OpCode>, c: Config, d: Config, n: nat, f: nat)
    requires
        reaches(ops, c, d, n),
        f < n,
    ensures
        run_for(ops, c, f).1 == Stop::OutOfFuel,
    decreases f,
{
    if f > 0 {
        match step(ops, c) {
            Step::Next(next) => lemma_reaches_needs_fuel(ops, next, d, (n - 1) as nat, (f - 1) as nat),
            Step::Done(_) => {},
        }
    }
}

/// Replacing a resolved `[-]` or `[+]` loop by one `SetZero`, with the jump
/// targets after it shifted, keeps what a run does: a run of `ops` from `a`
/// that stops within `f` steps for another reason than fuel is matched by a
/// run of `q` from the related `b` that stops within the returned number of
/// steps, at most `f`, for the same reason, with the same cursor, tape,
/// output and remaining input.
pub proof fn lemma_clear_replaced_runs(
    ops: Seq<OpCode>,
    q: Seq<OpCode>,
    i: int,
    a: Config,
    b: Config,
    f: nat,
) -> (g: nat)
    requires
        clear_replaced(ops, q, i),
        related(a, b, i),
    ensures
        run_for(ops, a, f).1 != Stop::OutOfFuel ==> {
            &&& g <= f
            &&& run_for(q, b, g).1 == run_for(ops, a, f).1
            &&& related(run_for(ops, a, f).0, run_for(q, b, g).0, i)
        },
    decreases f,
{
    if !(0 <= a.ip < ops.len()) {
        assert(!(0 <= b.ip < q.len()));
        0
    } else if f == 0 {
        0
    } else if a.ip != i {
        lemma_related_step(ops, q, i, a, b);
        match step(ops, a) {
            Step::Next(a2) => {
                let b2 = next_of(step(q, b));
                let g2 = lemma_clear_replaced_runs(ops, q, i, a2, b2, (f - 1) as nat);
                g2 + 1
            },
            Step::Done(_) => f,
        }
    } else if !on_tape(a, a.cell) {
        assert(step(q, b) == Step::Done(Stop::OutOfBounds));
        f
    } else {
        assert(b == jump(a, i));
        let n = lemma_clear_loop_is_set_zero(ops, a, i, q, i);
        if f < n {
            lemma_reaches_needs_fuel(ops, a, cleared(a, i + 3), n, f);
            0
        } else {
            let m = (f - n) as nat;
            lemma_reaches_then_runs(ops, a, cleared(a, i + 3), n, m);
            assert(n + m == f);
            let g2 = lemma_clear_replaced_runs(ops, q, i, cleared(a, i + 3), cleared(a, i + 1), m);
            g2 + 1
        }
    }
}

/// Each stream of `streams` is the one before it with the `[-]` or `[+]` loop
/// at the matching index of `at` replaced by one `SetZero`.
pub open spec fn clear_chain(streams: Seq<Seq<OpCode>>, at: Seq<int>) -> bool {
    &&& streams.len() == at.len() + 1
    &&& forall|k: int| 0 <= k < at.len() ==> clear_replaced(streams[k], streams[k + 1], #[trigger] at[k])
}

/// Replacing clear loops one after another keeps what a run from the start
/// of the program does: a run of the first stream from `c`, at the first op,
/// that stops within `f` steps for another reason than fuel is matched by a
/// run of the last stream from `c` that stops within the returned number of
/// steps, at most `f`, for the same reason, with the same cursor, tape,
/// output and remaining input.
pub proof fn lemma_clear_chain_runs(streams: Seq<Seq<OpCode>>, at: Seq<int>, c: Config, f: nat) -> (g: nat)
    requires
        clear_chain(streams, at),
        c.ip == 0,
    ensures
        run_for(streams[0], c, f).1 != Stop::OutOfFuel ==> {
            let (a, stop) = run_for(streams[0], c, f);
            let (b, stop2) = run_for(streams.last(), c, g);
            &&& g <= f
            &&& stop2 == stop
            &&& b.cell == a.cell && b.tape == a.tape && b.output == a.output && b.input == a.input
        },
    decreases at.len(),
{
    if at.len() == 0 {
        f
    } else {
        let i = at[0];
        assert(clear_replaced(streams[0], streams[1], i));
        let g1 = lemma_clear_replaced_runs(streams[0], streams[1], i, c, c, f);
        let rest = streams.skip(1);
        let at_rest = at.skip(1);
        assert forall|k: int| 0 <= k < at_rest.len() implies clear_replaced(
            rest[k],
            rest[k + 1],
            #[trigger] at_rest[k],
        ) by {
            assert(clear_replaced(streams[k + 1], streams[k + 2], at[k + 1]));
        }
        assert(rest.last() == streams.last());
        lemma_clear_chain_runs(rest, at_rest, c, g1)
    }
}

/// The interpreter's registers: the instruction pointer and the cursor.
pub struct Interpreter {
    pub ip: usize,
    pub cell: usize,
}

/// The configuration made of the registers, the tape and the two byte queues.
pub open spec fn config_of(it: Interpreter, cells: Seq<u8>, printer: Printer, scanner: Scanner) -> Config {
    Config {
        ip: it.ip as int,
        cell: it.cell as int,
        tape: cells,
        output: printer.bytes@,
        input: scanner.buffer@,
    }
}

/// Where `cell + offset` lands on a tape of `len` cells, if it does.
fn index_on_tape(cell: usize, offset: i32, len: usize) -> (r: Option<usize>)
    ensures
        r is Some <==> 0 <= cell + offset < len,
        r is Some ==> r->0 == cell + offset,
{
    if offset >= 0 {
        let d = offset as usize;
        if cell < len && d < len - cell {
            Some(cell + d)
        } else {
            None
        }
    } else {
        let d = (-(offset as i64)) as usize;
        if d <= cell && cell - d < len {
            Some(cell - d)
        } else {
            None
        }
    }
}

impl Interpreter {
    /// Registers at the start of a program: both 0.
    pub fn new() -> (r: Interpreter)
        ensures
            r.ip == 0,
            r.cell == 0,
    {
        Interpreter { ip: 0, cell: 0 }
    }

    /// Executes the op at `ip`, which must be in the stream. Returns the reason
    /// to stop, with nothing changed, or none after the step was taken.
    fn step(&mut self, ops: &[OpCode], cells: &mut Vec<u8>, printer: &mut Printer, scanner: &mut Scanner) -> (r: Option<Stop>)
        requires
            old(self).ip < ops.len(),
        ensures
            match step(ops@, config_of(*old(self), old(cells)@, *old(printer), *old(scanner))) {
                Step::Next(next) => r is None && config_of(*final(self), final(cells)@, *final(printer), *final(scanner)) == next,
                Step::Done(stop) => r == Some(stop) && config_of(*final(self), final(cells)@, *final(printer), *final(scanner)) == config_of(*old(self), old(cells)@, *old(printer), *old(scanner)),
            },
    {
        let len = cells.len();
        let cell = self.cell;
        let here = cell < len;
        match ops[self.ip] {
            OpCode::Right { count } => {
                if cell < len && (count as usize) < len - cell {
                    self.cell = cell + count as usize;
                    self.ip = self.ip + 1;
                    None
                } else {
                    Some(Stop::OutOfBounds)
                }
            },
            OpCode::Left { count } => {
                if (count as usize) <= cell && cell - (count as usize) < len {
                    self.cell = cell - count as usize;
                    self.ip = self.ip + 1;
                    None
                } else {
                    Some(Stop::OutOfBounds)
                }
            },
            OpCode::Inc { count, offset } => match index_on_tape(cell, offset, len) {
                Some(idx) => {
                    cells[idx] = cells[idx].wrapping_add(count);
                    self.ip = self.ip + 1;
                    None
                },
                None => Some(Stop::OutOfBounds),
            },
            OpCode::Dec { count, offset } => match index_on_tape(cell, offset, len) {
                Some(idx) => {
                    cells[idx] = cells[idx].wrapping_sub(count);
                    self.ip = self.ip + 1;
                    None
                },
                None => Some(Stop::OutOfBounds),
            },
            OpCode::Output => {
                if here {
                    printer.print(cells[cell]);
                    self.ip = self.ip + 1;
                    None
                } else {
                    Some(Stop::OutOfBounds)
                }
            },
            OpCode::Input => {
                if !here {
                    Some(Stop::OutOfBounds)
                } else {
                    match scanner.scan() {
                        Some(b) => {
                            cells[cell] = b;
                            self.ip = self.ip + 1;
                            None
                        },
                        None => Some(Stop::NeedInput),
                    }
                }
            },
            OpCode::JumpIfZero { target } => {
                if !here {
                    Some(Stop::OutOfBounds)
                } else {
                    self.ip = if cells[cell] == 0 { target } else { self.ip + 1 };
                    None
                }
            },
            OpCode::JumpIfNotZero { target } => {
                if !here {
                    Some(Stop::OutOfBounds)
                } else {
                    self.ip = if cells[cell] != 0 { target } else { self.ip + 1 };
                    None
                }
            },
            OpCode::SetZero => {
                if here {
                    cells[cell] = 0;
                    self.ip = self.ip + 1;
                    None
                } else {
                    Some(Stop::OutOfBounds)
                }
            },
            OpCode::Mul { factor, offset } => match index_on_tape(cell, offset, len) {
                Some(idx) => {
                    if here {
                        let product = cells[cell].wrapping_mul(factor);
                        cells[idx] = cells[idx].wrapping_add(product);
                        cells[cell] = 0;
                        self.ip = self.ip + 1;
                        None
                    } else {
                        Some(Stop::OutOfBounds)
                    }
                },
                None => Some(Stop::OutOfBounds),
            },
        }
    }

    /// Resolves the jumps of a freshly compiled op stream, then runs it from
    /// the start of the program for at most `fuel` steps. A stream whose
    /// brackets do not pair up is not run.
    pub fn exec(
        ops: &mut Vec<OpCode>,
        cells: &mut Vec<u8>,
        printer: &mut Printer,
        scanner: &mut Scanner,
        fuel: u64,
    ) -> (r: Result<(Interpreter, Stop), BracketError>)
        ensures
            r is Err ==> final(cells)@ == old(cells)@ && final(printer).bytes@ == old(
                printer,
            ).bytes@ && final(scanner).buffer@ == old(scanner).buffer@,
            r matches Err(BracketError::UnmatchedClose { index }) ==> first_unmatched_close(
                old(ops)@,
                index as int,
            ) && back_patched(old(ops)@, final(ops)@, index as int),
            r matches Err(BracketError::UnmatchedOpen { index }) ==> outer_unclosed_open(
                old(ops)@,
                index as int,
            ) && back_patched(old(ops)@, final(ops)@, old(ops)@.len() as int),
            r is Ok ==> brackets_paired(old(ops)@) && back_patched(
                old(ops)@,
                final(ops)@,
                old(ops)@.len() as int,
            ),
            r matches Ok((it, stop)) ==> (config_of(it, final(cells)@, *final(printer), *final(scanner)), stop) == run_for(
                final(ops)@,
                config_of(Interpreter { ip: 0, cell: 0 }, old(cells)@, *old(printer), *old(scanner)),
                fuel as nat,
            ),
    {
        match back_patch(ops) {
            Err(e) => Err(e),
            Ok(()) => {
                let mut it = Interpreter::new();
                let stop = it.run(ops.as_slice(), cells, printer, scanner, fuel);
                Ok((it, stop))
            },
        }
    }

    /// Runs the op stream for at most `fuel` steps, taking input from the
    /// scanner and appending output to the printer. Stops when the program
    /// halts, when an `Input` finds the scanner empty (the op is not taken:
    /// queue input and run again), on a tape fault, or when the fuel is spent.
    pub fn run(&mut self, ops: &[OpCode], cells: &mut Vec<u8>, printer: &mut Printer, scanner: &mut Scanner, fuel: u64) -> (r: Stop)
        ensures
            (config_of(*final(self), final(cells)@, *final(printer), *final(scanner)), r) == run_for(
                ops@,
                config_of(*old(self), old(cells)@, *old(printer), *old(scanner)),
                fuel as nat,
            ),
    {
        let mut left = fuel;
        loop
            invariant
                run_for(ops@, config_of(*self, cells@, *printer, *scanner), left as nat) == run_for(
                    ops@,
                    config_of(*old(self), old(cells)@, *old(printer), *old(scanner)),
                    fuel as nat,
                ),
            decreases left,
        {
            if self.ip >= ops.len() {
                return Stop::Halted;
            }
            if left == 0 {
                return Stop::OutOfFuel;
            }
            match self.step(ops, cells, printer, scanner) {
                Some(stop) => {
                    return stop;
                },
                None => {
                    left = left - 1;
                },
            }
        }
    }
}

} // verus!
