//! The merge over sources held in memory.
//!
//! A [`LineReader`] owns the lines of every source and a
//! [`Rotation`](crate::rotation::Rotation) over them. Reading a source means
//! taking the next of its lines; a source with none left is at its end.

use vstd::prelude::*;
use vstd::string::*;
use crate::outcome::ReadOutcome;
use crate::rotation::Rotation;
use crate::schedule::{
    lemma_next_keeps_wf, lemma_next_takes_one_line, lemma_retire_keeps_wf, MergeView,
};

verus! {

/// A round-robin reader over sources whose lines are all in memory.
pub struct LineReader {
    files: Vec<Vec<String>>,
    taken: Vec<usize>,
    rotation: Rotation,
}

impl View for LineReader {
    type V = MergeView;

    closed spec fn view(&self) -> MergeView {
        MergeView {
            rotation: self.rotation@,
            pending: Seq::new(
                self.files@.len(),
                |id: int| self.files.deep_view()[id].skip(self.taken@[id] as int),
            ),
        }
    }
}

impl LineReader {
    /// The invariant of a reader: its merge is well formed, and of no source
    /// were more lines taken than it has.
    pub closed spec fn wf(&self) -> bool {
        &&& self@.wf()
        &&& self.taken@.len() == self.files@.len()
        &&& forall|id: int|
            0 <= id < self.files@.len() ==> #[trigger] self.taken@[id] <= self.files@[id]@.len()
    }

    /// A reader over `sources`, each given as its lines in order. The first
    /// source has the first turn.
    pub fn new(sources: Vec<Vec<String>>) -> (reader: LineReader)
        ensures
            reader.wf(),
            reader@.wf(),
            reader@ == MergeView::initial(sources.deep_view()),
    {
        let count: usize = sources.len();
        let mut taken: Vec<usize> = Vec::new();
        let mut next: usize = 0;
        while next < count
            invariant
                next <= count,
                taken@.len() == next,
                forall|id: int| 0 <= id < next ==> taken@[id] == 0,
            decreases count - next,
        {
            taken.push(0);
            next = next + 1;
        }
        let ghost given = sources.deep_view();
        let reader = LineReader { files: sources, taken, rotation: Rotation::new(count) };
        proof {
            assert(reader@.pending =~~= given);
            assert forall|id: int|
                0 <= id < reader@.pending.len() && !reader@.rotation.live.contains(
                    id as usize,
                ) implies #[trigger] reader@.pending[id].len() == 0 by {
                assert(reader@.rotation.live[id] == id as usize);
            }
        }
        reader
    }

    /// The next line of the merge, or `None` once every source is at its
    /// end. The turn goes to the source at the cursor. If it has a line, that
    /// line is the result and the cursor moves on; if not, the source is
    /// retired and its successor is tried, until a line is found or no
    /// source is left.
    pub fn get_next_line(&mut self) -> (line: Option<String>)
        requires
            old(self).wf(),
        ensures
            final(self).wf(),
            final(self)@.wf(),
            final(self)@ == old(self)@.after_next(),
            match line {
                Some(text) => old(self)@.next_pick() matches Some(pick) && pick.line == text@,
                None => old(self)@.next_pick() is None,
            },
            line is None <==> final(self)@.rotation.done,
            final(self)@.rotation.done <==> final(self)@.rotation.live.len() == 0,
            final(self)@.rotation.live.len() <= old(self)@.rotation.live.len(),
            old(self)@.rotation.done ==> line is None && final(self)@ == old(self)@,
    {
        let ghost start = self@;
        loop
            invariant
                self.wf(),
                start == old(self)@,
                start.wf(),
                self@.next_pick() == start.next_pick(),
                self@.after_next() == start.after_next(),
            decreases self@.rotation.live.len(),
        {
            let ghost before = self@;
            proof {
                lemma_next_keeps_wf(start);
            }
            match self.rotation.next_source() {
                None => {
                    return None;
                },
                Some(id) => {
                    let at: usize = self.taken[id];
                    if at < self.files[id].len() {
                        let text: String = self.files[id][at].clone();
                        self.taken.set(id, at + 1);
                        let line = self.rotation.accept(ReadOutcome::Line(text));
                        assert(self@.pending =~~= before.after_line().pending);
                        return line;
                    } else {
                        self.rotation.accept(ReadOutcome::EndOfInput);
                        proof {
                            lemma_retire_keeps_wf(before);
                        }
                    }
                },
            }
        }
    }

    /// Whether the reader has told a caller that no line is left.
    pub fn is_done(&self) -> (done: bool)
        ensures
            done == self@.rotation.done,
    {
        self.rotation.is_done()
    }

    /// The number of sources that have not been retired.
    pub fn live_count(&self) -> (count: usize)
        ensures
            count == self@.rotation.live.len(),
    {
        self.rotation.live_count()
    }
}

/// Writes the whole merge to `output`: every line that `reader` still has to
/// give is appended, in merge order and exactly as it is, with nothing put
/// between the lines. The reader is spent afterwards.
pub fn write_lines(reader: &mut LineReader, output: &mut String)
    requires
        old(reader).wf(),
    ensures
        final(output)@ == old(output)@ + old(reader)@.lines().flatten(),
        final(reader).wf(),
        final(reader)@ == old(reader)@.spent(),
{
    loop
        invariant
            reader.wf(),
            output@ + reader@.lines().flatten() == old(output)@ + old(reader)@.lines().flatten(),
            reader@.spent() == old(reader)@.spent(),
        ensures
            reader.wf(),
            output@ == old(output)@ + old(reader)@.lines().flatten(),
            reader@ == old(reader)@.spent(),
        decreases reader@.picks().len(),
    {
        let ghost before = reader@;
        proof {
            lemma_next_takes_one_line(before);
        }
        match reader.get_next_line() {
            Some(text) => {
                output.append(text.as_str());
                proof {
                    let rest = reader@.lines();
                    assert(before.lines() =~= seq![text@] + rest);
                    assert((seq![text@] + rest).drop_first() =~= rest);
                }
            },
            None => {
                proof {
                    assert(reader@.rotation.live =~= Seq::<usize>::empty());
                    assert(reader@.pending =~~= before.spent().pending);
                }
                break ;
            },
        }
    }
}

} // verus!
