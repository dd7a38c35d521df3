//! What a status display shows of a demo replica: the colour of its role,
//! and the changes of its log, each with its sign, its term and a colour
//! that tells whether it is applied, committed, or neither yet.
use crate::demo::types::{Log, State};
use vstd::prelude::*;

verus! {

/// The colours of a status display.
#[derive(Clone, Copy, PartialEq, Eq, Debug, Structural)]
pub enum Colour {
    Blue,
    Cyan,
    Magenta,
    Red,
    Yellow,
    Green,
}

/// What a demo replica reports of itself to a status display.
#[derive(Clone, Debug)]
pub struct ReplicaStatus {
    pub id: usize,
    pub state: State,
    pub connected: bool,
    pub value: i32,
    pub term: usize,
    pub log: Vec<Log>,
    pub last_applied: usize,
    pub commit_index: usize,
}

/// One change of the log as the display shows it: whether it is written
/// with a plus sign, its change, its term, and its colour.
#[derive(Clone, Copy, PartialEq, Eq, Debug, Structural)]
pub struct LogSegment {
    pub plus_sign: bool,
    pub delta: i32,
    pub term: usize,
    pub colour: Colour,
}

/// The colour of a role: a connected replica's role has its own colour; a
/// disconnected one is shown in yellow.
pub open spec fn state_colour_spec(state: State, connected: bool) -> Colour {
    if connected {
        match state {
            State::Candidate => Colour::Blue,
            State::Leader => Colour::Cyan,
            State::Follower => Colour::Magenta,
            State::Dead => Colour::Red,
        }
    } else {
        Colour::Yellow
    }
}

/// The colour of the entry at index i: green once applied, magenta once
/// committed, yellow before.
pub open spec fn entry_colour_spec(i: int, last_applied: usize, commit_index: usize) -> Colour {
    if i <= last_applied {
        Colour::Green
    } else if i <= commit_index {
        Colour::Magenta
    } else {
        Colour::Yellow
    }
}

/// The segment that shows the entry at index i.
pub open spec fn segment_spec(e: Log, i: int, last_applied: usize, commit_index: usize) -> LogSegment {
    LogSegment {
        plus_sign: e.delta >= 0,
        delta: e.delta,
        term: e.term,
        colour: entry_colour_spec(i, last_applied, commit_index),
    }
}

/// The segments that show a log: one for each entry with a change other
/// than zero, in the order of the log.
pub open spec fn log_segments_spec(log: Seq<Log>, last_applied: usize, commit_index: usize) -> Seq<LogSegment>
    decreases log.len(),
{
    if log.len() == 0 {
        seq![]
    } else {
        let rest = log_segments_spec(log.drop_last(), last_applied, commit_index);
        if log.last().delta == 0 {
            rest
        } else {
            rest.push(segment_spec(log.last(), log.len() - 1, last_applied, commit_index))
        }
    }
}

/// The colour in which the display shows the role of a replica.
pub fn state_colour(status: &ReplicaStatus) -> (c: Colour)
    ensures
        c == state_colour_spec(status.state, status.connected),
{
    if status.connected {
        match status.state {
            State::Candidate => Colour::Blue,
            State::Leader => Colour::Cyan,
            State::Follower => Colour::Magenta,
            State::Dead => Colour::Red,
        }
    } else {
        Colour::Yellow
    }
}

/// The segments in which the display shows the log of a replica.
pub fn log_segments(status: &ReplicaStatus) -> (r: Vec<LogSegment>)
    ensures
        r@ == log_segments_spec(status.log@, status.last_applied, status.commit_index),
{
    let mut r: Vec<LogSegment> = Vec::new();
    let n = status.log.len();
    let mut i: usize = 0;
    while i < n
        invariant
            n == status.log.len(),
            i <= n,
            r@ == log_segments_spec(status.log@.take(i as int), status.last_applied, status.commit_index),
        decreases n - i,
    {
        let e = status.log[i];
        let ghost before = status.log@.take(i as int);
        assert(status.log@.take(i + 1).drop_last() =~= before);
        assert(status.log@.take(i + 1).last() == e);
        if e.delta != 0 {
            let colour = if i <= status.last_applied {
                Colour::Green
            } else if i <= status.commit_index {
                Colour::Magenta
            } else {
                Colour::Yellow
            };
            r.push(LogSegment { plus_sign: e.delta >= 0, delta: e.delta, term: e.term, colour });
        }
        i = i + 1;
    }
    assert(status.log@.take(n as int) =~= status.log@);
    r
}

/// The colours of roles: every role of a connected replica has its own
/// colour, none of them the yellow of a disconnected replica: a candidate
/// blue, a leader cyan, a follower magenta and a dead replica red, so a live
/// follower never looks down.
pub proof fn law_role_colours(a: State, b: State)
    ensures
        a != b ==> state_colour_spec(a, true) != state_colour_spec(b, true),
        state_colour_spec(a, true) != Colour::Yellow,
        state_colour_spec(a, false) == Colour::Yellow,
        a == State::Candidate ==> state_colour_spec(a, true) == Colour::Blue,
        a == State::Leader ==> state_colour_spec(a, true) == Colour::Cyan,
        a == State::Follower ==> state_colour_spec(a, true) == Colour::Magenta,
        a == State::Dead ==> state_colour_spec(a, true) == Colour::Red,
{
}

/// The colours of the log: an entry is shown green once applied, magenta
/// once committed but not applied, and yellow before; entries further in
/// the log are never shown as further along.
pub proof fn law_entry_colours(i: int, j: int, last_applied: usize, commit_index: usize)
    requires
        last_applied <= commit_index,
        i <= j,
    ensures
        (entry_colour_spec(i, last_applied, commit_index) == Colour::Green) == (i <= last_applied),
        (entry_colour_spec(i, last_applied, commit_index) == Colour::Magenta) == (last_applied < i
            <= commit_index),
        (entry_colour_spec(i, last_applied, commit_index) == Colour::Yellow) == (commit_index < i),
        entry_colour_spec(j, last_applied, commit_index) == Colour::Green ==> entry_colour_spec(
            i,
            last_applied,
            commit_index,
        ) == Colour::Green,
{
}

} // verus!
