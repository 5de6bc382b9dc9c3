//! A Brainfuck execution engine: a parser and peephole optimizer producing an
//! op stream, a step-bounded interpreter over that stream, and an x86-64
//! machine-code emitter for it.
pub mod compile;
pub mod interpret;
pub mod jit;
pub mod meassure;
pub mod scanner;

use vstd::prelude::*;

verus! {

/// The sink for the bytes that a program outputs: they wait here until the
/// host takes them.
pub struct Printer {
    pub bytes: Vec<u8>,
}

impl Printer {
    pub fn new() -> (r: Printer)
        ensures
            r.bytes@ == Seq::<u8>::empty(),
    {
        Printer { bytes: Vec::new() }
    }

    /// Appends one output byte.
    pub fn print(&mut self, value: u8)
        ensures
            final(self).bytes@ == old(self).bytes@.push(value),
    {
        self.bytes.push(value);
    }

    /// Hands over the bytes printed so far and leaves the sink empty.
    pub fn take(&mut self) -> (r: Vec<u8>)
        ensures
            r@ == old(self).bytes@,
            final(self).bytes@ == Seq::<u8>::empty(),
    {
        let mut out: Vec<u8> = Vec::new();
        std::mem::swap(&mut out, &mut self.bytes);
        out
    }
}

/// The source of input bytes: the host hands it one line at a time, and each
/// line is followed by a NUL byte.
pub struct Scanner {
    pub buffer: Vec<u8>,
}

impl Scanner {
    pub fn new() -> (r: Scanner)
        ensures
            r.buffer@ == Seq::<u8>::empty(),
    {
        Scanner { buffer: Vec::new() }
    }

    /// Queues one line of input, then the NUL byte that marks its end.
    pub fn refill(&mut self, line: &[u8])
        ensures
            final(self).buffer@ == old(self).buffer@ + line@ + seq![0u8],
    {
        let mut i: usize = 0;
        while i < line.len()
            invariant
                i <= line.len(),
                self.buffer@ == old(self).buffer@ + line@.take(i as int),
            decreases line.len() - i,
        {
            self.buffer.push(line[i]);
            i += 1;
            proof {
                assert(line@.take(i as int) =~= line@.take(i - 1).push(line@[i - 1]));
            }
        }
        self.buffer.push(0);
        proof {
            assert(line@.take(line.len() as int) =~= line@);
        }
    }

    /// Takes the next queued byte, or none when the queue is empty.
    pub fn scan(&mut self) -> (r: Option<u8>)
        ensures
            old(self).buffer@.len() == 0 ==> r is None && final(self).buffer@ == old(self).buffer@,
            old(self).buffer@.len() > 0 ==> r == Some(old(self).buffer@[0]) && final(self).buffer@
                == old(self).buffer@.drop_first(),
    {
        if self.buffer.len() == 0 {
            None
        } else {
            let b = self.buffer.remove(0);
            proof {
                assert(self.buffer@ =~= old(self).buffer@.drop_first());
            }
            Some(b)
        }
    }
}

} // verus!
