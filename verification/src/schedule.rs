//! What a whole merge emits, and the laws that hold of it.
//!
//! A [`MergeView`] joins a rotation with the lines that each source has yet
//! to give. [`MergeView::picks`] is the run from such a state to its end:
//! the lines in the order in which they come out, each with its source.

use vstd::prelude::*;
use crate::rotation::{lemma_retired_source_is_gone, RotationView};

verus! {

/// One emitted line and the source that gave it.
pub struct Pick {
    /// The source, by the index it had at the start.
    pub source: usize,
    /// The line, exactly as the source held it.
    pub line: Seq<char>,
}

/// A merge over sources whose lines are known, as a mathematical value.
pub struct MergeView {
    /// Which sources still take part, and whose turn it is.
    pub rotation: RotationView,
    /// For each source, by its index, the lines it has yet to give.
    pub pending: Seq<Seq<Seq<char>>>,
}

/// The number of lines in all of `pending` together.
pub open spec fn total_lines(pending: Seq<Seq<Seq<char>>>) -> nat
    decreases pending.len(),
{
    if pending.len() == 0 {
        0
    } else {
        total_lines(pending.drop_last()) + pending.last().len()
    }
}

/// The lines among `picks` that came from `source`, in the order in which
/// they were emitted.
pub open spec fn lines_from(picks: Seq<Pick>, source: usize) -> Seq<Seq<char>> {
    picks.filter(|p: Pick| p.source == source).map_values(|p: Pick| p.line)
}

impl MergeView {
    /// The invariant of a merge: a well-formed rotation over exactly these
    /// sources, in which a source that has left has nothing more to give.
    pub open spec fn wf(self) -> bool {
        &&& self.rotation.wf()
        &&& self.pending.len() == self.rotation.total
        &&& forall|id: int|
            0 <= id < self.pending.len() && !self.rotation.live.contains(id as usize)
                ==> #[trigger] self.pending[id].len() == 0
    }

    /// The merge of `sources` before anything was read.
    pub open spec fn initial(sources: Seq<Seq<Seq<char>>>) -> MergeView {
        MergeView { rotation: RotationView::initial(sources.len()), pending: sources }
    }

    /// Whether the source whose turn it is has a line to give.
    pub open spec fn current_has_line(self) -> bool {
        match self.rotation.current() {
            None => false,
            Some(id) => id < self.pending.len() && self.pending[id as int].len() > 0,
        }
    }

    /// The state after the current source gave its next line.
    pub open spec fn after_line(self) -> MergeView {
        match self.rotation.current() {
            None => self,
            Some(id) => MergeView {
                rotation: self.rotation.advanced(),
                pending: self.pending.update(id as int, self.pending[id as int].drop_first()),
            },
        }
    }

    /// The state after the current source was found to have no line.
    pub open spec fn after_retire(self) -> MergeView {
        MergeView { rotation: self.rotation.retired(), ..self }
    }

    /// The next line of the merge: that of the first source, from the cursor
    /// on, that has one; sources found empty on the way are retired. `None`
    /// once no source is left.
    pub open spec fn next_pick(self) -> Option<Pick>
        decreases self.rotation.live.len(),
    {
        match self.rotation.current() {
            None => None,
            Some(id) => if self.current_has_line() {
                Some(Pick { source: id, line: self.pending[id as int][0] })
            } else {
                self.after_retire().next_pick()
            },
        }
    }

    /// The state in which asking for the next line leaves the merge.
    pub open spec fn after_next(self) -> MergeView
        decreases self.rotation.live.len(),
    {
        match self.rotation.current() {
            None => MergeView { rotation: self.rotation.polled(), ..self },
            Some(id) => if self.current_has_line() {
                self.after_line()
            } else {
                self.after_retire().after_next()
            },
        }
    }

    /// Everything the merge emits from this state on, in order: the next line
    /// again and again until there is none.
    pub open spec fn picks(self) -> Seq<Pick>
        decreases total_lines(self.pending),
        via Self::picks_decreases
    {
        match self.next_pick() {
            None => Seq::empty(),
            Some(pick) => seq![pick] + self.after_next().picks(),
        }
    }

    #[via_fn]
    proof fn picks_decreases(self) {
        lemma_next_takes_one_line(self);
    }

    /// The lines of the merge from this state on, without their sources.
    pub open spec fn lines(self) -> Seq<Seq<char>> {
        self.picks().map_values(|p: Pick| p.line)
    }

    /// The state at the end of the run: finished, no source live, nothing
    /// pending.
    pub open spec fn spent(self) -> MergeView {
        MergeView {
            rotation: RotationView {
                live: Seq::empty(),
                cursor: 0,
                done: true,
                total: self.rotation.total,
            },
            pending: Seq::new(self.pending.len(), |id: int| Seq::empty()),
        }
    }
}

/// Before anything is read, the merge of sources that can be counted in a
/// `usize` is well formed.
pub proof fn lemma_initial_is_wf(sources: Seq<Seq<Seq<char>>>)
    requires
        sources.len() <= usize::MAX,
    ensures
        MergeView::initial(sources).wf(),
{
    let s = MergeView::initial(sources);
    assert forall|id: int|
        0 <= id < s.pending.len() && !s.rotation.live.contains(
            id as usize,
        ) implies #[trigger] s.pending[id].len() == 0 by {
        assert(s.rotation.live[id] == id as usize);
    }
}

/// The total is the length of all the lines laid end to end.
pub proof fn lemma_total_lines_is_flat_len(pending: Seq<Seq<Seq<char>>>)
    ensures
        total_lines(pending) == pending.flatten().len(),
    decreases pending.len(),
{
    pending.lemma_flatten_and_flatten_alt_are_equivalent();
    if pending.len() > 0 {
        lemma_total_lines_is_flat_len(pending.drop_last());
        pending.drop_last().lemma_flatten_and_flatten_alt_are_equivalent();
    }
}

/// Replacing one source's lines changes the total by the difference.
pub proof fn lemma_total_lines_update(pending: Seq<Seq<Seq<char>>>, id: int, lines: Seq<Seq<char>>)
    requires
        0 <= id < pending.len(),
    ensures
        total_lines(pending.update(id, lines)) + pending[id].len() == total_lines(pending)
            + lines.len(),
    decreases pending.len(),
{
    let updated = pending.update(id, lines);
    if id == pending.len() - 1 {
        assert(updated.drop_last() == pending.drop_last());
    } else {
        assert(updated.drop_last() == pending.drop_last().update(id, lines));
        lemma_total_lines_update(pending.drop_last(), id, lines);
    }
}

/// Asking for the next line takes exactly that line from the pending ones,
/// and takes nothing where there is no next line.
pub proof fn lemma_next_takes_one_line(s: MergeView)
    ensures
        match s.next_pick() {
            Some(pick) => {
                &&& pick.source < s.pending.len()
                &&& s.pending[pick.source as int].len() > 0
                &&& pick.line == s.pending[pick.source as int][0]
                &&& s.after_next().pending == s.pending.update(
                    pick.source as int,
                    s.pending[pick.source as int].drop_first(),
                )
                &&& total_lines(s.after_next().pending) + 1 == total_lines(s.pending)
            },
            None => s.after_next().pending == s.pending,
        },
    decreases s.rotation.live.len(),
{
    match s.rotation.current() {
        None => {},
        Some(id) => {
            if s.current_has_line() {
                lemma_total_lines_update(s.pending, id as int, s.pending[id as int].drop_first());
            } else {
                lemma_next_takes_one_line(s.after_retire());
            }
        },
    }
}

/// A line from the current source leaves a well-formed merge well formed.
pub proof fn lemma_line_keeps_wf(s: MergeView)
    requires
        s.wf(),
        s.current_has_line(),
    ensures
        s.after_line().wf(),
{
}

/// Retiring a current source that has no line leaves a well-formed merge
/// well formed.
pub proof fn lemma_retire_keeps_wf(s: MergeView)
    requires
        s.wf(),
        s.rotation.current() is Some,
        !s.current_has_line(),
    ensures
        s.after_retire().wf(),
{
    lemma_retired_source_is_gone(s.rotation);
}

/// Asking for the next line leaves a well-formed merge well formed. The
/// number of live sources does not grow; the merge is finished afterwards
/// exactly when it had no line to give, and exactly then no source is live.
pub proof fn lemma_next_keeps_wf(s: MergeView)
    requires
        s.wf(),
    ensures
        s.after_next().wf(),
        s.after_next().rotation.live.len() <= s.rotation.live.len(),
        s.after_next().rotation.total == s.rotation.total,
        s.next_pick() is None <==> s.after_next().rotation.done,
        s.after_next().rotation.done <==> s.after_next().rotation.live.len() == 0,
        s.next_pick() is None ==> forall|id: int|
            0 <= id < s.pending.len() ==> #[trigger] s.pending[id].len() == 0,
    decreases s.rotation.live.len(),
{
    match s.rotation.current() {
        None => {},
        Some(id) => {
            if s.current_has_line() {
            } else {
                lemma_retire_keeps_wf(s);
                lemma_next_keeps_wf(s.after_retire());
            }
        },
    }
}

/// A finished merge is final: it has no next line, and asking for one leaves
/// it as it is.
pub proof fn lemma_finished_merge_is_final(s: MergeView)
    requires
        s.wf(),
        s.rotation.done,
    ensures
        s.next_pick() is None,
        s.after_next() == s,
        s.picks().len() == 0,
{
}

/// The merge emits each source's lines, all of them, once each and in the
/// source's own order: the lines that come out of one source are exactly the
/// lines it had yet to give.
pub proof fn lemma_every_line_once(s: MergeView, source: usize)
    requires
        s.wf(),
        source < s.pending.len(),
    ensures
        lines_from(s.picks(), source) == s.pending[source as int],
    decreases total_lines(s.pending),
{
    let wanted = |p: Pick| p.source == source;
    lemma_next_takes_one_line(s);
    lemma_next_keeps_wf(s);
    match s.next_pick() {
        None => {
        },
        Some(pick) => {
            let rest = s.after_next().picks();
            lemma_every_line_once(s.after_next(), source);
            rest.lemma_filter_prepend(pick, wanted);
            if pick.source == source {
                assert(lines_from(s.picks(), source) == seq![pick.line] + lines_from(
                    rest,
                    source,
                ));
            }
        },
    }
}

/// The merge emits as many lines as the sources hold together, every one of
/// them from a source of the merge and equal to a line of that source.
pub proof fn lemma_line_count(s: MergeView)
    requires
        s.wf(),
    ensures
        s.picks().len() == total_lines(s.pending),
        s.lines().len() == s.pending.flatten().len(),
        forall|k: int|
            0 <= k < s.picks().len() ==> (#[trigger] s.picks()[k]).source < s.pending.len()
                && s.pending[s.picks()[k].source as int].contains(s.picks()[k].line),
    decreases total_lines(s.pending),
{
    lemma_next_takes_one_line(s);
    lemma_next_keeps_wf(s);
    lemma_total_lines_is_flat_len(s.pending);
    match s.next_pick() {
        None => {
            lemma_no_lines(s.pending);
        },
        Some(pick) => {
            let t = s.after_next();
            lemma_line_count(t);
            assert forall|k: int| 0 <= k < s.picks().len() implies (#[trigger] s.picks()[k]).source
                < s.pending.len() && s.pending[s.picks()[k].source as int].contains(
                s.picks()[k].line,
            ) by {
                if k > 0 {
                    let later = t.picks()[k - 1];
                    let held = t.pending[later.source as int];
                    let at = choose|i: int| 0 <= i < held.len() && held[i] == later.line;
                    assert(s.pending[later.source as int].contains(held[at]));
                }
            }
        },
    }
}

/// Completeness of the merge. From the start to the end the merge of
/// `sources` emits as many lines as the sources hold together, and the lines
/// that come out of each source are that source's lines: all of them, once
/// each, unchanged and in their own order.
pub proof fn lemma_merge_emits_every_line(sources: Seq<Seq<Seq<char>>>)
    requires
        sources.len() <= usize::MAX,
    ensures
        MergeView::initial(sources).picks().len() == sources.flatten().len(),
        forall|source: usize|
            source < sources.len() ==> #[trigger] lines_from(
                MergeView::initial(sources).picks(),
                source,
            ) == sources[source as int],
{
    let s = MergeView::initial(sources);
    lemma_initial_is_wf(sources);
    lemma_line_count(s);
    assert forall|source: usize| source < sources.len() implies #[trigger] lines_from(
        s.picks(),
        source,
    ) == sources[source as int] by {
        lemma_every_line_once(s, source);
    }
}

/// Sources that are all empty hold no line.
pub proof fn lemma_no_lines(pending: Seq<Seq<Seq<char>>>)
    requires
        forall|id: int| 0 <= id < pending.len() ==> #[trigger] pending[id].len() == 0,
    ensures
        total_lines(pending) == 0,
    decreases pending.len(),
{
    if pending.len() > 0 {
        lemma_no_lines(pending.drop_last());
    }
}

} // verus!
