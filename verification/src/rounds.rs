//! Fairness of the merge while every source is live.
//!
//! As long as no source has been found at its end, the merge goes round the
//! sources in order: line number `k` of the merge, counted from zero, is line
//! `k / n` of source `k % n`, where `n` is the number of sources. A source
//! with `c` lines is found at its end on its turn after `c * n + id` lines of
//! such a run, `id` being its index; the laws here speak of the lines before
//! the first such moment.

use vstd::prelude::*;
use vstd::arithmetic::div_mod::{
    lemma_fundamental_div_mod, lemma_fundamental_div_mod_converse, lemma_mod_bound,
    lemma_mod_self_0, lemma_small_mod,
};
use crate::rotation::RotationView;
use crate::schedule::{MergeView, Pick};

verus! {

/// Whether the merge of `sources` emits line number `k` before it finds any
/// source at its end.
pub open spec fn all_live_at(sources: Seq<Seq<Seq<char>>>, k: int) -> bool {
    &&& 0 <= k
    &&& 0 < sources.len() <= usize::MAX
    &&& forall|id: int|
        0 <= id < sources.len() ==> k < (#[trigger] sources[id]).len() * sources.len() + id
}

/// The line that a plain interleaving of `sources` has at place `k`.
pub open spec fn interleaved(sources: Seq<Seq<Seq<char>>>, k: int) -> Pick {
    let n = sources.len() as int;
    Pick { source: (k % n) as usize, line: sources[k % n][k / n] }
}

/// The merge of `sources` after `k` lines of plain interleaving.
pub open spec fn after_interleaved(sources: Seq<Seq<Seq<char>>>, k: int) -> MergeView {
    let n = sources.len() as int;
    MergeView {
        rotation: RotationView { cursor: k % n, ..RotationView::initial(sources.len()) },
        pending: Seq::new(
            sources.len(),
            |id: int|
                sources[id].skip(
                    k / n + if id < k % n {
                        1int
                    } else {
                        0int
                    },
                ),
        ),
    }
}

/// Quotient and remainder of the successor.
proof fn lemma_next_place(k: int, n: int)
    requires
        0 <= k,
        0 < n,
    ensures
        0 <= k % n < n,
        0 <= k / n,
        k == (k / n) * n + k % n,
        k % n + 1 < n ==> (k + 1) % n == k % n + 1 && (k + 1) / n == k / n,
        k % n + 1 == n ==> (k + 1) % n == 0 && (k + 1) / n == k / n + 1,
{
    let q = k / n;
    let r = k % n;
    lemma_fundamental_div_mod(k, n);
    lemma_mod_bound(k, n);
    assert(k == q * n + r) by (nonlinear_arith)
        requires
            k == n * q + r,
    ;
    assert(0 <= q) by (nonlinear_arith)
        requires
            0 <= k,
            0 < n,
            0 <= r < n,
            k == q * n + r,
    ;
    if r + 1 < n {
        lemma_fundamental_div_mod_converse(k + 1, n, q, r + 1);
    } else {
        assert(k + 1 == (q + 1) * n + 0) by (nonlinear_arith)
            requires
                k == q * n + r,
                r + 1 == n,
        ;
        lemma_fundamental_div_mod_converse(k + 1, n, q + 1, 0);
    }
}

/// One step of a plain interleaving: while every source is live, the next
/// line is the interleaved one, and taking it leads to the next interleaved
/// state.
proof fn lemma_interleaved_step(sources: Seq<Seq<Seq<char>>>, k: int)
    requires
        all_live_at(sources, k),
    ensures
        after_interleaved(sources, k).next_pick() == Some(interleaved(sources, k)),
        after_interleaved(sources, k).after_next() == after_interleaved(sources, k + 1),
{
    let n = sources.len() as int;
    let s = after_interleaved(sources, k);
    let q = k / n;
    let c = k % n;
    lemma_next_place(k, n);
    assert(q < sources[c].len()) by (nonlinear_arith)
        requires
            k == q * n + c,
            k < sources[c].len() * n + c,
            0 < n,
    ;
    let t = after_interleaved(sources, k + 1);
    assert(s.after_line().rotation.cursor == t.rotation.cursor) by {
        if c + 1 < n {
            lemma_small_mod((c + 1) as nat, n as nat);
        } else {
            lemma_mod_self_0(n);
        }
    }
    assert(s.after_line().pending =~= t.pending) by {
        assert(sources[c].skip(q).drop_first() =~= sources[c].skip(q + 1));
    }
}

/// All sources that are live at place `k` are live at every earlier place.
proof fn lemma_all_live_earlier(sources: Seq<Seq<Seq<char>>>, k: int, earlier: int)
    requires
        all_live_at(sources, k),
        0 <= earlier <= k,
    ensures
        all_live_at(sources, earlier),
{
}

/// From an interleaved state on, the merge goes on interleaving for as long
/// as every source is live.
proof fn lemma_interleaved_from(sources: Seq<Seq<Seq<char>>>, done: int, ahead: int)
    requires
        0 <= done,
        0 <= ahead,
        all_live_at(sources, done + ahead),
    ensures
        ahead < after_interleaved(sources, done).picks().len(),
        after_interleaved(sources, done).picks()[ahead] == interleaved(sources, done + ahead),
    decreases ahead,
{
    lemma_all_live_earlier(sources, done + ahead, done);
    lemma_interleaved_step(sources, done);
    if ahead > 0 {
        lemma_interleaved_from(sources, done + 1, ahead - 1);
    }
}

/// Round-robin fairness, line by line. While every source is live, line
/// number `k` of the merge is line `k / n` of source `k % n`.
pub proof fn lemma_merge_interleaves(sources: Seq<Seq<Seq<char>>>, k: int)
    requires
        all_live_at(sources, k),
    ensures
        k < MergeView::initial(sources).picks().len(),
        MergeView::initial(sources).picks()[k] == interleaved(sources, k),
{
    let n = sources.len() as int;
    lemma_interleaved_from(sources, 0, k);
    lemma_fundamental_div_mod_converse(0, n, 0, 0);
    assert(after_interleaved(sources, 0).pending =~~= sources);
}

/// Round-robin fairness, window by window. While every source is live, any
/// `n` lines in a row of the merge of `n` sources hold exactly one line of
/// each source: of `source` the line at place `start + (source - start) mod
/// n`, which is the next line in that source's own order, and no other.
pub proof fn lemma_window_is_fair(sources: Seq<Seq<Seq<char>>>, start: int, source: int)
    requires
        0 <= start,
        0 <= source < sources.len(),
        all_live_at(sources, start + sources.len() - 1),
    ensures
        ({
            let n = sources.len() as int;
            let picks = MergeView::initial(sources).picks();
            let place = start + (source - start) % n;
            &&& start + n <= picks.len()
            &&& start <= place < start + n
            &&& picks[place] == (Pick { source: source as usize, line: sources[source][place / n] })
            &&& forall|other: int|
                start <= other < start + n && other != place ==> (#[trigger] picks[other]).source
                    != source
        }),
{
    let n = sources.len() as int;
    let picks = MergeView::initial(sources).picks();
    let last = start + n - 1;
    let place = start + (source - start) % n;
    lemma_merge_interleaves(sources, last);
    lemma_mod_bound(source - start, n);
    lemma_all_live_earlier(sources, last, place);
    lemma_merge_interleaves(sources, place);
    lemma_fundamental_div_mod(source - start, n);
    let turns = -((source - start) / n);
    assert(place == turns * n + source) by (nonlinear_arith)
        requires
            source - start == n * (-turns) + (source - start) % n,
            place == start + (source - start) % n,
    ;
    lemma_fundamental_div_mod_converse(place, n, turns, source);
    assert forall|other: int| start <= other < start + n && other != place implies (
    #[trigger] picks[other]).source != source by {
        lemma_all_live_earlier(sources, last, other);
        lemma_merge_interleaves(sources, other);
        lemma_next_place(other, n);
        if other % n == source {
            let rounds = other / n;
            assert(other - place == (rounds - turns) * n) by (nonlinear_arith)
                requires
                    other == rounds * n + source,
                    place == turns * n + source,
            ;
            assert(false) by (nonlinear_arith)
                requires
                    other - place == (rounds - turns) * n,
                    -n < other - place < n,
                    other != place,
                    0 < n,
            ;
        }
    }
}

} // verus!
