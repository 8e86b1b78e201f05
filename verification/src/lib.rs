//! Round-robin merging of line sources.
//!
//! Several sources of lines are merged into one stream by taking one line
//! from each live source in turn. A source that has nothing more to give is
//! retired, and the turn passes to its successor without skipping it.
//!
//! * [`outcome`] classifies what one attempt to read a line produced.
//! * [`rotation`] is the merge state itself: the ordered live sources and the
//!   cursor. It decides which source is read next and what a read outcome
//!   does to the state; the caller performs the read.
//! * [`schedule`] says what a whole run emits: every line of every source,
//!   once, each source's lines in their own order.
//! * [`rounds`] shows that the merge is fair: while every source is live,
//!   each round takes one line from each.
//! * [`reader`] runs the rotation over sources held in memory.
//! * [`listing`] selects the regular files of a directory listing.

pub mod listing;
pub mod outcome;
pub mod reader;
pub mod rotation;
pub mod rounds;
pub mod schedule;
