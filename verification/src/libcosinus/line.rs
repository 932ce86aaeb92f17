//! Reading a line of input one byte at a time: the decisions of the reader,
//! fed with the outcome of each one-byte read.
use vstd::prelude::*;

verus! {

/// Outcome of reading one byte.
#[derive(Clone, Copy, PartialEq, Eq, Structural)]
pub enum ReadOutcome {
    /// Nothing is there yet; try again after yielding.
    Again,
    /// An error, or the end of the input.
    End,
    /// One byte was read.
    Byte(u8),
}

/// What the reader does next.
#[derive(Clone, Copy, PartialEq, Eq, Structural)]
pub enum LineAction {
    /// Yield, then read again.
    Retry,
    /// Read the next byte.
    More,
    /// The line is complete.
    Done,
}

/// A line ends once `cap` bytes are held or the last byte is a newline.
pub open spec fn line_complete(bytes: Seq<u8>, cap: nat) -> bool {
    bytes.len() >= cap || (bytes.len() > 0 && bytes.last() == 10u8)
}

/// Bytes of a line read so far, into a buffer of `cap` bytes.
pub struct LineReader {
    pub bytes: Vec<u8>,
    pub cap: usize,
}

impl LineReader {
    /// A reader with nothing read into a buffer of `cap` bytes.
    pub fn new(cap: usize) -> (r: Self)
        ensures
            r.bytes@ == Seq::<u8>::empty(),
            r.cap == cap,
    {
        LineReader { bytes: Vec::new(), cap }
    }

    /// Whether the line is complete.
    pub fn complete(&self) -> (r: bool)
        ensures
            r == line_complete(self.bytes@, self.cap as nat),
    {
        let n = self.bytes.len();
        n >= self.cap || (n > 0 && self.bytes[n - 1] == 10u8)
    }

    /// Take the outcome of one read: a byte is kept and ends the line when
    /// it is a newline or fills the buffer; the end of the input ends the
    /// line; with nothing there yet the reader yields and reads again. A
    /// complete line takes nothing more.
    pub fn step(&mut self, ev: ReadOutcome) -> (a: LineAction)
        ensures
            final(self).cap == old(self).cap,
            line_complete(old(self).bytes@, old(self).cap as nat) ==> a == LineAction::Done && final(self).bytes@
                == old(self).bytes@,
            !line_complete(old(self).bytes@, old(self).cap as nat) ==> match ev {
                ReadOutcome::Again => a == LineAction::Retry && final(self).bytes@ == old(self).bytes@,
                ReadOutcome::End => a == LineAction::Done && final(self).bytes@ == old(self).bytes@,
                ReadOutcome::Byte(b) => {
                    &&& final(self).bytes@ == old(self).bytes@.push(b)
                    &&& a == if line_complete(final(self).bytes@, old(self).cap as nat) {
                        LineAction::Done
                    } else {
                        LineAction::More
                    }
                },
            },
    {
        if self.complete() {
            return LineAction::Done;
        }
        match ev {
            ReadOutcome::Again => LineAction::Retry,
            ReadOutcome::End => LineAction::Done,
            ReadOutcome::Byte(b) => {
                self.bytes.push(b);
                if self.complete() {
                    LineAction::Done
                } else {
                    LineAction::More
                }
            },
        }
    }
}

} // verus!
