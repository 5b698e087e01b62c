//! The event log of a market and its replay from any logged point.

use vstd::prelude::*;
use crate::api::{MatcherTradeEvent, OrderCommand};
use super::{EventSequenceGenerator, PredictionError};
use super::events::ReplayEvent;
use super::unified::UnifiedOrderBookSnapshot;

verus! {

/// Index of the first event with sequence number `sequence` in `log`, or -1.
pub open spec fn position_of_sequence(log: Seq<ReplayEvent>, sequence: u64) -> int
    decreases log.len(),
{
    if log.len() == 0 {
        -1
    } else if position_of_sequence(log.drop_last(), sequence) >= 0 {
        position_of_sequence(log.drop_last(), sequence)
    } else if log.last().sequence == sequence {
        log.len() - 1
    } else {
        -1
    }
}

/// `e` records `command` with trades `trade_events` under number `sequence`.
pub open spec fn records(e: ReplayEvent, sequence: u64, command: OrderCommand, trade_events: Seq<MatcherTradeEvent>) -> bool {
    &&& e.sequence == sequence
    &&& e.timestamp == command.timestamp
    &&& e.events_group == command.events_group
    &&& e.service_flags == command.service_flags
    &&& e.command.same_but_events(command)
    &&& e.command.matcher_events@ == command.matcher_events@
    &&& e.trade_events@ == trade_events
}

/// Keeps the events applied since a base snapshot, and replays them.
#[derive(Debug)]
pub struct EventReplayManager {
    base_snapshot: UnifiedOrderBookSnapshot,
    event_log: Vec<ReplayEvent>,
    current_position: usize,
    sequence_generator: EventSequenceGenerator,
}

impl Clone for EventReplayManager {
    fn clone(&self) -> (r: Self)
        ensures
            r.log().len() == self.log().len(),
            forall|i: int| 0 <= i < self.log().len() ==> (#[trigger] r.log()[i]).same_event(self.log()[i]),
            r.position() == self.position(),
            r.next_seq() == self.next_seq(),
            self.wf() ==> r.wf(),
    {
        let event_log = self.event_log.clone();
        proof {
            assert forall|i: int| 0 <= i < self.event_log@.len() implies (#[trigger] event_log@[i]).same_event(
                self.event_log@[i],
            ) by {
                assert(cloned::<ReplayEvent>(self.event_log@[i], event_log@[i]));
            }
        }
        EventReplayManager {
            base_snapshot: self.base_snapshot.clone(),
            event_log,
            current_position: self.current_position,
            sequence_generator: self.sequence_generator,
        }
    }
}

impl EventReplayManager {
    /// The logged events, oldest first.
    pub closed spec fn log(&self) -> Seq<ReplayEvent> {
        self.event_log@
    }

    /// Where the last replay started.
    pub closed spec fn position(&self) -> usize {
        self.current_position
    }

    /// The number the next recorded event gets.
    pub closed spec fn next_seq(&self) -> u64 {
        self.sequence_generator@
    }

    /// The logged events carry consecutive numbers that end just before
    /// `next_seq`.
    pub open spec fn wf(&self) -> bool {
        &&& self.log().len() <= self.next_seq()
        &&& forall|i: int|
            0 <= i < self.log().len() ==> (#[trigger] self.log()[i]).sequence == self.next_seq()
                - self.log().len() + i
    }

    /// A manager with an empty log whose first event gets `start_sequence`.
    pub fn new(base_snapshot: UnifiedOrderBookSnapshot, start_sequence: u64) -> (r: Self)
        ensures
            r.wf(),
            r.log().len() == 0,
            r.position() == 0,
            r.next_seq() == start_sequence,
    {
        Self {
            base_snapshot,
            event_log: Vec::new(),
            current_position: 0,
            sequence_generator: EventSequenceGenerator::new(start_sequence),
        }
    }

    /// Logs `command` with its trades `trade_events` under the next number,
    /// and returns that number.
    pub fn record_event(&mut self, command: &OrderCommand, trade_events: Vec<MatcherTradeEvent>) -> (r: u64)
        requires
            old(self).next_seq() < u64::MAX,
        ensures
            r == old(self).next_seq(),
            final(self).next_seq() == old(self).next_seq() + 1,
            final(self).log().len() == old(self).log().len() + 1,
            final(self).log().drop_last() == old(self).log(),
            records(final(self).log().last(), r, *command, trade_events@),
            final(self).log().last().sequence == r,
            final(self).log().last().timestamp == command.timestamp,
            final(self).log().last().events_group == command.events_group,
            final(self).log().last().service_flags == command.service_flags,
            final(self).log().last().command.same_but_events(*command),
            final(self).log().last().command.matcher_events@ == command.matcher_events@,
            final(self).log().last().trade_events@ == trade_events@,
            final(self).position() == old(self).position(),
            old(self).wf() ==> final(self).wf(),
    {
        let ghost te = trade_events@;
        let sequence = self.sequence_generator.next();
        let replay_event = ReplayEvent {
            sequence,
            timestamp: command.timestamp,
            events_group: command.events_group,
            service_flags: command.service_flags,
            command: command.clone(),
            trade_events,
        };
        self.event_log.push(replay_event);
        proof {
            assert(self.log().drop_last() =~= old(self).log());
            if old(self).wf() {
                assert forall|i: int| 0 <= i < self.log().len() implies (#[trigger] self.log()[i]).sequence
                    == self.next_seq() - self.log().len() + i by {
                    if i < self.log().len() - 1 {
                        assert(self.log()[i] == old(self).log()[i]);
                    }
                }
            }
        }
        sequence
    }

    /// The logged events from `position` on, oldest first; the replay
    /// position becomes `position`. Fails with `InvalidReplayPosition` when
    /// `position` is beyond the end of the log, and then changes nothing.
    pub fn replay_from(&mut self, position: usize) -> (r: Result<Vec<&ReplayEvent>, PredictionError>)
        ensures
            final(self).log() == old(self).log(),
            final(self).next_seq() == old(self).next_seq(),
            position > old(self).log().len() ==> {
                &&& r == Err::<Vec<&ReplayEvent>, PredictionError>(
                    PredictionError::InvalidReplayPosition { position, len: old(self).log().len() as usize },
                )
                &&& final(self).position() == old(self).position()
            },
            position <= old(self).log().len() ==> {
                &&& r is Ok
                &&& r->Ok_0@.len() == old(self).log().len() - position
                &&& forall|i: int|
                    0 <= i < r->Ok_0@.len() ==> *(#[trigger] r->Ok_0@[i]) == old(self).log()[position + i]
                &&& final(self).position() == position
            },
    {
        if position > self.event_log.len() {
            return Err(PredictionError::InvalidReplayPosition { position, len: self.event_log.len() });
        }
        self.current_position = position;
        let mut events: Vec<&ReplayEvent> = Vec::new();
        let mut i = position;
        while i < self.event_log.len()
            invariant
                position <= i <= self.event_log@.len(),
                events@.len() == i - position,
                forall|j: int| 0 <= j < events@.len() ==> *(#[trigger] events@[j]) == self.event_log@[position + j],
            decreases self.event_log@.len() - i,
        {
            events.push(&self.event_log[i]);
            i = i + 1;
        }
        Ok(events)
    }

    /// Replays from the logged event numbered `target_sequence`. Fails with
    /// `SequenceNotFound` when no logged event has that number, and then
    /// changes nothing. In a well-formed manager the number is found exactly
    /// when it lies in `[next_seq - log.len(), next_seq)`.
    pub fn replay_to_snapshot(&mut self, target_sequence: u64) -> (r: Result<Vec<&ReplayEvent>, PredictionError>)
        ensures
            final(self).log() == old(self).log(),
            final(self).next_seq() == old(self).next_seq(),
            ({
                let p = position_of_sequence(old(self).log(), target_sequence);
                &&& p < 0 ==> {
                    &&& r == Err::<Vec<&ReplayEvent>, PredictionError>(
                        PredictionError::SequenceNotFound { sequence: target_sequence },
                    )
                    &&& final(self).position() == old(self).position()
                }
                &&& p >= 0 ==> {
                    &&& r is Ok
                    &&& r->Ok_0@.len() == old(self).log().len() - p
                    &&& forall|i: int|
                        0 <= i < r->Ok_0@.len() ==> *(#[trigger] r->Ok_0@[i]) == old(self).log()[p + i]
                    &&& final(self).position() == p
                }
            }),
            old(self).wf() ==> (position_of_sequence(old(self).log(), target_sequence) >= 0 <==> old(
                self,
            ).next_seq() - old(self).log().len() <= target_sequence < old(self).next_seq()),
            old(self).wf() && position_of_sequence(old(self).log(), target_sequence) >= 0
                ==> position_of_sequence(old(self).log(), target_sequence) == target_sequence - (old(
                self,
            ).next_seq() - old(self).log().len()),
    {
        proof {
            lemma_position_of_sequence(self.log(), target_sequence);
            if self.wf() {
                lemma_position_in_consecutive_log(self, target_sequence);
            }
        }
        let found = find_sequence(&self.event_log, target_sequence);
        match found {
            Some(position) => self.replay_from(position),
            None => Err(PredictionError::SequenceNotFound { sequence: target_sequence }),
        }
    }

    /// Where the last replay started.
    pub fn current_position(&self) -> (r: usize)
        ensures
            r == self.position(),
    {
        self.current_position
    }

    /// Number of logged events.
    pub fn event_count(&self) -> (r: usize)
        ensures
            r == self.log().len(),
    {
        self.event_log.len()
    }

    /// The number the next recorded event gets.
    pub fn next_sequence(&self) -> (r: u64)
        ensures
            r == self.next_seq(),
    {
        self.sequence_generator.current()
    }

    /// Empties the log and resets the replay position; numbering goes on.
    pub fn clear_event_log(&mut self)
        ensures
            final(self).log().len() == 0,
            final(self).position() == 0,
            final(self).next_seq() == old(self).next_seq(),
            final(self).wf(),
    {
        self.event_log.clear();
        self.current_position = 0;
    }
}

/// Index of the first event of `log` with number `sequence`.
fn find_sequence(log: &Vec<ReplayEvent>, sequence: u64) -> (r: Option<usize>)
    ensures
        match r {
            Some(p) => p as int == position_of_sequence(log@, sequence),
            None => position_of_sequence(log@, sequence) == -1,
        },
{
    let mut i: usize = 0;
    while i < log.len()
        invariant
            i <= log@.len(),
            position_of_sequence(log@.take(i as int), sequence) == -1,
        decreases log@.len() - i,
    {
        proof {
            assert(log@.take(i + 1).drop_last() =~= log@.take(i as int));
        }
        if log[i].sequence == sequence {
            proof {
                assert(log@.take(i + 1).last() == log@[i as int]);
                lemma_position_prefix(log@, i + 1, sequence);
            }
            return Some(i);
        }
        i = i + 1;
    }
    proof {
        assert(log@.take(i as int) =~= log@);
    }
    None
}

/// `position_of_sequence` finds the first event with the number, and -1
/// means none.
pub proof fn lemma_position_of_sequence(log: Seq<ReplayEvent>, sequence: u64)
    ensures
        -1 <= position_of_sequence(log, sequence) < log.len(),
        position_of_sequence(log, sequence) >= 0 ==> log[position_of_sequence(log, sequence)].sequence
            == sequence,
        position_of_sequence(log, sequence) == -1 <==> forall|i: int|
            0 <= i < log.len() ==> (#[trigger] log[i]).sequence != sequence,
    decreases log.len(),
{
    if log.len() > 0 {
        lemma_position_of_sequence(log.drop_last(), sequence);
        let d = log.drop_last();
        if position_of_sequence(d, sequence) >= 0 {
            assert(d[position_of_sequence(d, sequence)] == log[position_of_sequence(d, sequence)]);
        }
        if position_of_sequence(log, sequence) == -1 {
            assert forall|i: int| 0 <= i < log.len() implies (#[trigger] log[i]).sequence != sequence by {
                if i < log.len() - 1 {
                    assert(log[i] == d[i]);
                }
            }
        } else {
            let p = position_of_sequence(log, sequence);
            assert(log[p].sequence == sequence);
        }
    }
}

/// Once a prefix holds the number, the whole log finds it at the same index.
proof fn lemma_position_prefix(log: Seq<ReplayEvent>, j: int, sequence: u64)
    requires
        0 <= j <= log.len(),
        position_of_sequence(log.take(j), sequence) >= 0,
    ensures
        position_of_sequence(log, sequence) == position_of_sequence(log.take(j), sequence),
    decreases log.len() - j,
{
    if j < log.len() {
        assert(log.take(j + 1).drop_last() =~= log.take(j));
        lemma_position_prefix(log, j + 1, sequence);
    } else {
        assert(log.take(j) =~= log);
    }
}

/// In a log of consecutive numbers ending before `next_seq`, a number is
/// found exactly when it is one of them, at its offset from the first.
pub proof fn lemma_position_in_consecutive_log(m: &EventReplayManager, sequence: u64)
    requires
        m.wf(),
    ensures
        position_of_sequence(m.log(), sequence) >= 0 <==> m.next_seq() - m.log().len() <= sequence
            < m.next_seq(),
        position_of_sequence(m.log(), sequence) >= 0 ==> position_of_sequence(m.log(), sequence)
            == sequence - (m.next_seq() - m.log().len()),
{
    let log = m.log();
    lemma_position_of_sequence(log, sequence);
    let first = m.next_seq() - log.len();
    if first <= sequence < m.next_seq() {
        let k = sequence - first;
        assert(log[k].sequence == sequence);
    }
}

/// A recorded event is replayed from where the log ended before it: when
/// `after` is `before` once `record_event` has logged `command` with trades
/// `trade_events` under `sequence`, `replay_from` at the old log length
/// succeeds with exactly one event, the one that records the command, and
/// the events before it are unchanged.
pub proof fn lemma_replay_after_record(
    before: EventReplayManager,
    after: EventReplayManager,
    sequence: u64,
    command: OrderCommand,
    trade_events: Seq<MatcherTradeEvent>,
)
    requires
        after.log().len() == before.log().len() + 1,
        after.log().drop_last() == before.log(),
        records(after.log().last(), sequence, command, trade_events),
    ensures
        before.log().len() <= after.log().len(),
        after.log().len() - before.log().len() == 1,
        records(after.log()[before.log().len() as int], sequence, command, trade_events),
        forall|i: int| 0 <= i < before.log().len() ==> after.log()[i] == before.log()[i],
{
    assert forall|i: int| 0 <= i < before.log().len() implies after.log()[i] == before.log()[i] by {
        assert(after.log().drop_last()[i] == after.log()[i]);
    }
}

/// Replaying from where the log ended before `record_event` gives back the
/// trades that were passed to it: when `after` is `before` with one more
/// event whose trades are `trade_events`, the event at the old log length,
/// the only one a replay from there returns, carries exactly those trades.
pub proof fn lemma_replay_returns_recorded_trades(
    before: EventReplayManager,
    after: EventReplayManager,
    trade_events: Seq<MatcherTradeEvent>,
)
    requires
        after.log().len() == before.log().len() + 1,
        after.log().drop_last() == before.log(),
        after.log().last().trade_events@ == trade_events,
    ensures
        after.log().len() - before.log().len() == 1,
        after.log()[before.log().len() as int].trade_events@ == trade_events,
{
}

} // verus!
