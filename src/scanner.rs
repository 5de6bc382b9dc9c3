//! A streaming tokenizer that yields one op per run of equal instruction
//! bytes, with 8-bit counts. Comment bytes inside a run do not break it.
use vstd::prelude::*;

use crate::compile::{
    is_code, is_run_byte, lemma_run_ends, lemma_run_len_bound, lemma_run_extends, run_len, strip, CLOSE, COMMA, DOT, GT,
    LT, MINUS, OPEN, PLUS,
};

verus! {

/// An op with the counts of a single byte.
#[derive(Debug, Clone, Copy, PartialEq, Eq, Structural)]
pub enum OpCode {
    Right { count: u8 },
    Left { count: u8 },
    Inc { count: u8 },
    Dec { count: u8 },
    Output,
    Input,
    JumpIfZero { target: usize },
    JumpIfNotZero { target: usize },
    SetZero,
}

/// The op for a run of `n` copies of the instruction byte `b`.
pub open spec fn token_for(b: u8, n: nat) -> OpCode {
    if b == PLUS {
        OpCode::Inc { count: n as u8 }
    } else if b == MINUS {
        OpCode::Dec { count: n as u8 }
    } else if b == LT {
        OpCode::Left { count: n as u8 }
    } else if b == GT {
        OpCode::Right { count: n as u8 }
    } else if b == DOT {
        OpCode::Output
    } else if b == COMMA {
        OpCode::Input
    } else if b == OPEN {
        OpCode::JumpIfZero { target: 0 }
    } else {
        OpCode::JumpIfNotZero { target: 0 }
    }
}

/// How many bytes one op takes from a run of `b`.
pub open spec fn token_cap(b: u8) -> nat {
    if b == PLUS || b == MINUS || b == LT || b == GT {
        255
    } else {
        1
    }
}

/// Walks source bytes and yields ops.
pub struct BfCompiler {
    pub code: Vec<u8>,
    pub index: usize,
}

/// The instruction bytes of `code` before index `i`.
pub open spec fn code_before(code: Seq<u8>, i: int) -> Seq<u8> {
    strip(code.take(i))
}

proof fn lemma_code_before_step(code: Seq<u8>, i: int)
    requires
        0 <= i < code.len(),
    ensures
        code_before(code, i + 1) == if is_code(code[i]) {
            code_before(code, i).push(code[i])
        } else {
            code_before(code, i)
        },
{
    assert(code.take(i + 1).drop_last() =~= code.take(i));
}

/// The instruction bytes before any index start the instruction bytes of the whole source.
proof fn lemma_code_before_prefix(code: Seq<u8>, i: int)
    requires
        0 <= i <= code.len(),
    ensures
        code_before(code, i).len() <= strip(code).len(),
        forall|m: int|
            0 <= m < code_before(code, i).len() ==> strip(code)[m] == #[trigger] code_before(
                code,
                i,
            )[m],
    decreases code.len() - i,
{
    if i == code.len() {
        assert(code.take(i) =~= code);
    } else {
        lemma_code_before_prefix(code, i + 1);
        lemma_code_before_step(code, i);
        assert forall|m: int| 0 <= m < code_before(code, i).len() implies strip(code)[m]
            == #[trigger] code_before(code, i)[m] by {
            assert(code_before(code, i + 1)[m] == code_before(code, i)[m]);
        }
    }
}

/// A run of exactly `n` copies of `b` from `k`, cut by the cap, the end or another byte.
proof fn lemma_run_len_exact(s: Seq<u8>, k: int, b: u8, n: nat, cap: nat)
    requires
        0 <= k,
        k + n <= s.len(),
        n <= cap,
        forall|m: int| k <= m < k + n ==> s[m] == b,
        n == cap || k + n == s.len() || s[k + n] != b,
    ensures
        run_len(s, k, b, cap) == n,
    decreases n,
{
    if n > 0 {
        lemma_run_len_exact(s, k + 1, b, (n - 1) as nat, (cap - 1) as nat);
    }
}

/// Two ops of the same run-folded kind.
pub open spec fn same_kind(a: OpCode, b: OpCode) -> bool {
    ||| a is Inc && b is Inc
    ||| a is Dec && b is Dec
    ||| a is Left && b is Left
    ||| a is Right && b is Right
}

/// Of two ops that `next` yields one after the other from the instruction
/// bytes `s`, the first folded from index `k`, never are both `Inc`, both
/// `Dec`, both `Left` or both `Right`, where the run at `k` is at most 255 long.
pub proof fn lemma_next_runs_maximal(s: Seq<u8>, k: int)
    requires
        0 <= k < s.len(),
        k + run_len(s, k, s[k], token_cap(s[k])) < s.len(),
        is_run_byte(s[k]) ==> run_len(s, k, s[k], 256) <= 255,
    ensures
        ({
            let n = run_len(s, k, s[k], token_cap(s[k]));
            let j = k + n;
            !same_kind(token_for(s[k], n), token_for(s[j], run_len(s, j, s[j], token_cap(s[j]))))
        }),
{
    let b = s[k];
    let n = run_len(s, k, b, token_cap(b));
    if is_run_byte(b) {
        lemma_run_len_bound(s, k, b, 255);
        if n < 255 {
            lemma_run_ends(s, k, b, 255);
        } else if s[k + n] == b {
            lemma_run_extends(s, k, b, 255);
        }
    }
}

impl BfCompiler {
    pub fn new(code: &[u8]) -> (r: BfCompiler)
        ensures
            r.code@ == code@,
            r.index == 0,
    {
        BfCompiler { code: vstd::slice::slice_to_vec(code), index: 0 }
    }

    /// Moves past the comment bytes at the current position.
    fn skip_non_code(&mut self)
        requires
            old(self).index <= old(self).code@.len(),
        ensures
            final(self).code == old(self).code,
            old(self).index <= final(self).index <= final(self).code@.len(),
            code_before(final(self).code@, final(self).index as int) == code_before(
                old(self).code@,
                old(self).index as int,
            ),
            final(self).index < final(self).code@.len() ==> is_code(
                final(self).code@[final(self).index as int],
            ),
    {
        while self.index < self.code.len() && !is_code_byte(self.code[self.index])
            invariant
                self.code == old(self).code,
                old(self).index <= self.index <= self.code@.len(),
                code_before(self.code@, self.index as int) == code_before(
                    old(self).code@,
                    old(self).index as int,
                ),
            decreases self.code@.len() - self.index,
        {
            proof {
                lemma_code_before_step(self.code@, self.index as int);
            }
            self.index += 1;
        }
    }

    /// The op for the next run of one instruction byte, skipping comments
    /// before and within it; a run longer than 255 yields 255 now and the
    /// rest later. None once the source is used up.
    pub fn next(&mut self) -> (r: Option<OpCode>)
        requires
            old(self).index <= old(self).code@.len(),
        ensures
            final(self).code == old(self).code,
            final(self).index <= final(self).code@.len(),
            ({
                let code = old(self).code@;
                let s = strip(code);
                let k = code_before(code, old(self).index as int).len() as int;
                if k >= s.len() {
                    r is None && final(self).index == code.len()
                } else {
                    let n = run_len(s, k, s[k], token_cap(s[k]));
                    &&& r == Some(token_for(s[k], n))
                    &&& code_before(code, final(self).index as int).len() == k + n
                    &&& is_code(code[final(self).index - 1])
                }
            }),
    {
        let ghost code = self.code@;
        let ghost s = strip(code);
        let ghost k = code_before(code, self.index as int).len() as int;
        self.skip_non_code();
        let len = self.code.len();
        let start = self.index;
        if start >= len {
            proof {
                assert(code.take(len as int) =~= code);
            }
            return None;
        }
        let t = self.code[start];
        proof {
            lemma_code_before_step(code, start as int);
            lemma_code_before_prefix(code, start + 1);
            assert(s[k] == code_before(code, start + 1)[k]);
        }
        let cap: usize = if t == PLUS || t == MINUS || t == LT || t == GT {
            255
        } else {
            1
        };
        let mut n: usize = 1;
        let mut i: usize = start + 1;
        let mut end: usize = start + 1;
        let mut done = false;
        while !done && n < cap && i < len
            invariant
                self.code@ == code,
                s == strip(code),
                len == code.len(),
                start < end <= i <= len,
                1 <= n <= cap,
                cap == token_cap(t),
                k < s.len(),
                s[k] == t,
                code_before(code, end as int).len() == k + n,
                forall|m: int| k <= m < k + n ==> s[m] == t,
                is_code(code[end - 1]),
                !done ==> code_before(code, i as int) == code_before(code, end as int),
                done ==> k + n < s.len() && s[k + n] != t,
            decreases len - i,
        {
            let b = self.code[i];
            proof {
                lemma_code_before_step(code, i as int);
                lemma_code_before_prefix(code, i + 1);
                if is_code(b) {
                    assert(code_before(code, i + 1).len() == k + n + 1);
                    assert(code_before(code, i + 1)[k + n] == b);
                    assert(s[k + n] == code_before(code, i + 1)[k + n]);
                }
            }
            if b == t {
                n += 1;
                end = i + 1;
            } else if is_code_byte(b) {
                done = true;
            }
            i += 1;
        }
        proof {
            if !done && n < cap {
                assert(code.take(len as int) =~= code);
            }
            lemma_code_before_prefix(code, end as int);
            lemma_run_len_exact(s, k, t, n as nat, cap as nat);
        }
        self.index = end;
        let count = n as u8;
        Some(
            if t == PLUS {
                OpCode::Inc { count }
            } else if t == MINUS {
                OpCode::Dec { count }
            } else if t == LT {
                OpCode::Left { count }
            } else if t == GT {
                OpCode::Right { count }
            } else if t == DOT {
                OpCode::Output
            } else if t == COMMA {
                OpCode::Input
            } else if t == OPEN {
                OpCode::JumpIfZero { target: 0 }
            } else {
                OpCode::JumpIfNotZero { target: 0 }
            },
        )
    }
}

fn is_code_byte(b: u8) -> (r: bool)
    ensures
        r == is_code(b),
{
    b == LT || b == GT || b == PLUS || b == MINUS || b == DOT || b == COMMA || b == OPEN || b
        == CLOSE
}

} // verus!
