//! The merge state: which sources still take part, and whose turn it is.
//!
//! A [`Rotation`] never reads. It names the source to read next
//! ([`Rotation::next_source`]) and is told what the read produced
//! ([`Rotation::accept`]). A line moves the turn on to the next live source,
//! wrapping at the end; anything else retires the source and leaves the turn
//! with the source that now stands in its place.
//!
//! A caller that reads from files or streams drives it like this:
//!
//! ```text
//! while let Some(source) = rotation.next_source() {
//!     let outcome = /* read one line from `source` */;
//!     if let Some(line) = rotation.accept(outcome) {
//!         /* emit `line` */
//!     }
//! }
//! ```

use vstd::prelude::*;
use vstd::arithmetic::div_mod::{
    lemma_add_mod_noop, lemma_mod_add_multiples_vanish, lemma_mod_bound,
    lemma_mod_sub_multiples_vanish, lemma_mod_twice, lemma_small_mod,
};
use crate::outcome::ReadOutcome;

verus! {

/// A rotation as a mathematical value.
pub struct RotationView {
    /// The sources that still take part, in turn order. A source is known by
    /// the index it had when the rotation was made.
    pub live: Seq<usize>,
    /// The position in `live` of the source whose turn it is.
    pub cursor: int,
    /// Whether a caller has been told that no source is left.
    pub done: bool,
    /// The number of sources the rotation was made with.
    pub total: nat,
}

impl RotationView {
    /// The invariant of a rotation: the sources can be counted in a `usize`;
    /// the live sources are distinct, among those the rotation was made
    /// with, and in ascending order; the cursor is a valid position whenever
    /// there is one; and a finished rotation has no source.
    pub open spec fn wf(self) -> bool {
        &&& self.total <= usize::MAX
        &&& forall|i: int| 0 <= i < self.live.len() ==> self.live[i] < self.total
        &&& forall|i: int, j: int| 0 <= i < j < self.live.len() ==> self.live[i] < self.live[j]
        &&& if self.live.len() == 0 {
            self.cursor == 0
        } else {
            0 <= self.cursor < self.live.len()
        }
        &&& self.done ==> self.live.len() == 0
    }

    /// The rotation over `total` fresh sources: all live, the first one up.
    pub open spec fn initial(total: nat) -> RotationView {
        RotationView { live: Seq::new(total, |i: int| i as usize), cursor: 0, done: false, total }
    }

    /// The source whose turn it is, if any source is live.
    pub open spec fn current(self) -> Option<usize> {
        if 0 <= self.cursor < self.live.len() {
            Some(self.live[self.cursor])
        } else {
            None
        }
    }

    /// The state after the caller has asked for the next source: asking an
    /// empty rotation finishes it, asking any other changes nothing.
    pub open spec fn polled(self) -> RotationView {
        if self.live.len() == 0 {
            RotationView { done: true, ..self }
        } else {
            self
        }
    }

    /// The state after the current source gave a line: the turn moves to the
    /// next position, and from the last position back to the first.
    pub open spec fn advanced(self) -> RotationView {
        if self.live.len() == 0 {
            self
        } else {
            RotationView { cursor: (self.cursor + 1) % (self.live.len() as int), ..self }
        }
    }

    /// The state after the current source gave no line: the source leaves,
    /// and the cursor stays where it is, now on the successor, unless it was
    /// on the last position, from which it wraps to the first.
    pub open spec fn retired(self) -> RotationView {
        if self.live.len() == 0 {
            self
        } else {
            let live = self.live.remove(self.cursor);
            RotationView {
                live,
                cursor: if self.cursor >= live.len() {
                    0
                } else {
                    self.cursor
                },
                ..self
            }
        }
    }

    /// The state after the read of the current source produced `outcome`.
    pub open spec fn accepted(self, outcome: ReadOutcome) -> RotationView {
        if outcome.yields_line() {
            self.advanced()
        } else {
            self.retired()
        }
    }

    /// The state after `turns` lines in a row.
    pub open spec fn advanced_by(self, turns: nat) -> RotationView
        decreases turns,
    {
        if turns == 0 {
            self
        } else {
            self.advanced_by((turns - 1) as nat).advanced()
        }
    }
}

/// The executable merge state.
pub struct Rotation {
    live: Vec<usize>,
    cursor: usize,
    done: bool,
    total: usize,
}

impl View for Rotation {
    type V = RotationView;

    closed spec fn view(&self) -> RotationView {
        RotationView {
            live: self.live@,
            cursor: self.cursor as int,
            done: self.done,
            total: self.total as nat,
        }
    }
}

impl Rotation {
    /// A rotation over `count` sources, numbered from zero, all live.
    pub fn new(count: usize) -> (rotation: Rotation)
        ensures
            rotation@ == RotationView::initial(count as nat),
            rotation@.wf(),
    {
        let mut live: Vec<usize> = Vec::new();
        let mut next: usize = 0;
        while next < count
            invariant
                next <= count,
                live@ == Seq::new(next as nat, |i: int| i as usize),
            decreases count - next,
        {
            live.push(next);
            next = next + 1;
        }
        Rotation { live, cursor: 0, done: false, total: count }
    }

    /// The number of sources that still take part.
    pub fn live_count(&self) -> (count: usize)
        ensures
            count == self@.live.len(),
    {
        self.live.len()
    }

    /// Whether a caller has been told that no source is left.
    pub fn is_done(&self) -> (done: bool)
        ensures
            done == self@.done,
    {
        self.done
    }

    /// Names the source to read next. With no source left the rotation
    /// becomes finished and says so with `None`, now and on every later call.
    pub fn next_source(&mut self) -> (source: Option<usize>)
        requires
            old(self)@.wf(),
        ensures
            final(self)@ == old(self)@.polled(),
            final(self)@.wf(),
            source == old(self)@.current(),
            source is None <==> final(self)@.done,
            old(self)@.done ==> source is None && final(self)@ == old(self)@,
    {
        if self.live.len() == 0 {
            self.done = true;
            None
        } else {
            Some(self.live[self.cursor])
        }
    }

    /// Takes in what the read of the current source produced. A line is
    /// handed back and the turn moves on; any other outcome retires the
    /// source and hands back nothing. An outcome offered while no source is
    /// live is dropped.
    pub fn accept(&mut self, outcome: ReadOutcome) -> (line: Option<String>)
        requires
            old(self)@.wf(),
        ensures
            final(self)@ == old(self)@.accepted(outcome),
            final(self)@.wf(),
            line == match outcome {
                ReadOutcome::Line(text) => if old(self)@.live.len() > 0 {
                    Some(text)
                } else {
                    None
                },
                _ => None,
            },
    {
        let count: usize = self.live.len();
        if count == 0 {
            return None;
        }
        match outcome {
            ReadOutcome::Line(text) => {
                self.cursor = (self.cursor + 1) % count;
                Some(text)
            },
            _ => {
                self.live.remove(self.cursor);
                if self.cursor >= self.live.len() {
                    self.cursor = 0;
                }
                None
            },
        }
    }
}

/// Every step leaves a well-formed rotation well formed.
pub proof fn lemma_steps_keep_wf(s: RotationView, outcome: ReadOutcome)
    requires
        s.wf(),
    ensures
        s.polled().wf(),
        s.advanced().wf(),
        s.retired().wf(),
        s.accepted(outcome).wf(),
{
}

/// A finished rotation is final: it names no source, and neither asking it
/// again nor offering it an outcome changes it.
pub proof fn lemma_finished_is_final(s: RotationView, outcome: ReadOutcome)
    requires
        s.wf(),
        s.done,
    ensures
        s.current() is None,
        s.polled() == s,
        s.accepted(outcome) == s,
{
}

/// The number of live sources never grows: asking for the next source keeps
/// it, a line keeps it, and any other outcome takes one source away. The
/// rotation is finished by a question exactly when that number is zero.
pub proof fn lemma_live_count_shrinks(s: RotationView, outcome: ReadOutcome)
    requires
        s.wf(),
    ensures
        s.polled().live == s.live,
        s.polled().done <==> s.live.len() == 0,
        s.accepted(outcome).live.len() <= s.live.len(),
        outcome.yields_line() ==> s.accepted(outcome).live == s.live,
        !outcome.yields_line() && s.live.len() > 0 ==> s.accepted(outcome).live.len() + 1
            == s.live.len(),
        s.accepted(outcome).done == s.done,
{
}

/// A retired source never comes back, and the sources that stay keep their
/// order.
pub proof fn lemma_retired_source_is_gone(s: RotationView)
    requires
        s.wf(),
        s.live.len() > 0,
    ensures
        !s.retired().live.contains(s.live[s.cursor]),
        forall|id: usize| id != s.live[s.cursor] ==> (s.retired().live.contains(id)
            <==> s.live.contains(id)),
        s.cursor + 1 < s.live.len() ==> s.retired().current() == Some(s.live[s.cursor + 1]),
        s.cursor + 1 == s.live.len() && s.live.len() > 1 ==> s.retired().current() == Some(
            s.live[0],
        ),
{
    let r = s.retired();
    let gone = s.live[s.cursor];
    assert forall|id: usize| id != gone implies (r.live.contains(id) <==> s.live.contains(
        id,
    )) by {
        if s.live.contains(id) {
            let i = choose|i: int| 0 <= i < s.live.len() && s.live[i] == id;
            if i < s.cursor {
                assert(r.live[i] == id);
            } else {
                assert(r.live[i - 1] == id);
            }
        }
    }
}

/// After `turns` lines in a row the same sources are live and the cursor has
/// moved `turns` positions round the ring.
pub proof fn lemma_advanced_by(s: RotationView, turns: nat)
    requires
        s.wf(),
        s.live.len() > 0,
    ensures
        s.advanced_by(turns) == (RotationView {
            cursor: (s.cursor + turns) % (s.live.len() as int),
            ..s
        }),
        s.advanced_by(turns).wf(),
    decreases turns,
{
    let n = s.live.len() as int;
    if turns == 0 {
        lemma_small_mod(s.cursor as nat, n as nat);
    } else {
        lemma_advanced_by(s, (turns - 1) as nat);
        let x = s.cursor + turns - 1;
        lemma_add_mod_noop(x, 1, n);
        lemma_add_mod_noop(x % n, 1, n);
        lemma_mod_twice(x, n);
        lemma_mod_bound(s.cursor + turns, n);
    }
}

/// Fairness of a round. While every one of the `n` live sources keeps giving
/// lines, `n` turns in a row bring the rotation back to where it was, and on
/// the way each live source has the turn exactly once: the source at
/// position `position` has it after `(position - cursor) mod n` lines and at
/// no other moment of the round.
pub proof fn lemma_round_is_fair(s: RotationView, position: int)
    requires
        s.wf(),
        0 <= position < s.live.len(),
    ensures
        s.advanced_by(s.live.len()) == s,
        ({
            let n = s.live.len() as int;
            let turn = ((position - s.cursor) % n) as nat;
            &&& turn < n
            &&& s.advanced_by(turn).current() == Some(s.live[position])
            &&& forall|other: nat|
                other < n && other != turn ==> #[trigger] s.advanced_by(other).current() != Some(
                    s.live[position],
                )
        }),
{
    let n = s.live.len() as int;
    let turn = ((position - s.cursor) % n) as nat;
    lemma_advanced_by(s, s.live.len());
    lemma_mod_add_multiples_vanish(s.cursor, n);
    lemma_small_mod(s.cursor as nat, n as nat);
    lemma_mod_bound(position - s.cursor, n);
    lemma_advanced_by(s, turn);
    if position >= s.cursor {
        lemma_small_mod((position - s.cursor) as nat, n as nat);
        lemma_small_mod(position as nat, n as nat);
    } else {
        lemma_mod_add_multiples_vanish(position - s.cursor, n);
        lemma_small_mod((position - s.cursor + n) as nat, n as nat);
        lemma_mod_add_multiples_vanish(position, n);
        lemma_small_mod(position as nat, n as nat);
    }
    assert forall|other: nat| other < n && other != turn implies #[trigger] s.advanced_by(
        other,
    ).current() != Some(s.live[position]) by {
        lemma_advanced_by(s, other);
        let at = (s.cursor + other) % n;
        lemma_mod_bound(s.cursor + other, n);
        if s.cursor + other < n {
            lemma_small_mod((s.cursor + other) as nat, n as nat);
        } else {
            lemma_mod_sub_multiples_vanish(s.cursor + other, n);
            lemma_small_mod((s.cursor + other - n) as nat, n as nat);
        }
    }
}

} // verus!
