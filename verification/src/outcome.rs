//! What one attempt to read a line from a source produced.

use vstd::prelude::*;

verus! {

/// The result of asking a source for its next line.
#[derive(Debug, Clone, PartialEq, Eq)]
pub enum ReadOutcome {
    /// The source gave a line, terminator included where it had one.
    Line(String),
    /// The source is at its end.
    EndOfInput,
    /// The read failed for a reason other than the end of the input.
    Failed,
}

impl ReadOutcome {
    /// Whether this outcome carries a line. The two outcomes that carry none
    /// are treated alike by the merge: the source is retired. A failed read
    /// therefore ends its source without ending the run.
    pub open spec fn yields_line(self) -> bool {
        self is Line
    }

    /// The outcome that a read reports by a byte count: `count` is the number
    /// of bytes the read appended to `line`, or `None` where the read failed.
    /// Nothing read, or a failure, leaves no line.
    pub open spec fn of_read(count: Option<usize>, line: String) -> ReadOutcome {
        match count {
            None => ReadOutcome::Failed,
            Some(n) => if n > 0 {
                ReadOutcome::Line(line)
            } else {
                ReadOutcome::EndOfInput
            },
        }
    }

    /// Classifies a read from its byte count and the buffer it filled.
    pub fn classify(count: Option<usize>, line: String) -> (outcome: ReadOutcome)
        ensures
            outcome == ReadOutcome::of_read(count, line),
    {
        match count {
            None => ReadOutcome::Failed,
            Some(n) => {
                if n > 0 {
                    ReadOutcome::Line(line)
                } else {
                    ReadOutcome::EndOfInput
                }
            },
        }
    }

    /// Exec form of [`ReadOutcome::yields_line`].
    pub fn is_line(&self) -> (b: bool)
        ensures
            b == self.yields_line(),
    {
        match self {
            ReadOutcome::Line(_) => true,
            _ => false,
        }
    }
}

} // verus!
