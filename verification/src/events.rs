//! The recent-event log: a capped window of the latest simulation events and a
//! running total of every event ever logged.

use vstd::prelude::*;
use std::collections::VecDeque;

verus! {

/// Events kept in the recent window (the span of the live metrics window).
pub const EVENT_CAP: usize = 6000;

/// Why an elk left the simulation.
#[derive(Clone, Copy, Debug, PartialEq, Eq, Structural)]
pub enum EventKind {
    Starved,
    Departed,
}

/// A log's window and total describe the history `all` (every event ever
/// pushed, oldest first): the total counts it, and the window is its last
/// `EVENT_CAP` events, or all of it while it is shorter.
pub open spec fn keeps_tail<E>(recent: Seq<E>, total: int, all: Seq<E>) -> bool {
    &&& total == all.len()
    &&& recent == (if all.len() <= EVENT_CAP { all } else { all.skip(all.len() - EVENT_CAP) })
}

/// The last `EVENT_CAP` events, oldest first, and the number ever pushed.
pub struct EventLog<E> {
    pub recent: VecDeque<E>,
    pub total: u64,
}

impl<E> Default for EventLog<E> {
    fn default() -> (log: Self)
        ensures
            log.recent@ == Seq::<E>::empty(),
            log.total == 0,
    {
        EventLog { recent: VecDeque::new(), total: 0 }
    }
}

impl<E> EventLog<E> {
    /// Appends `event`, first dropping the oldest when the window is full,
    /// and counts it in the total.
    pub fn push(&mut self, event: E)
        requires
            old(self).total < u64::MAX,
        ensures
            final(self).recent@ == (if old(self).recent@.len() >= EVENT_CAP {
                old(self).recent@.drop_first()
            } else {
                old(self).recent@
            }).push(event),
            final(self).total == old(self).total + 1,
            old(self).recent@.len() <= EVENT_CAP ==> final(self).recent@.len() <= EVENT_CAP,
            forall|all: Seq<E>|
                keeps_tail(old(self).recent@, old(self).total as int, all) ==> #[trigger] keeps_tail(
                    final(self).recent@,
                    final(self).total as int,
                    all.push(event),
                ),
    {
        if self.recent.len() >= EVENT_CAP {
            let _ = self.recent.pop_front();
        }
        self.recent.push_back(event);
        self.total += 1;
        proof {
            assert forall|all: Seq<E>|
                keeps_tail(old(self).recent@, old(self).total as int, all) implies #[trigger] keeps_tail(
                    self.recent@,
                    self.total as int,
                    all.push(event),
                ) by {
                let grown = all.push(event);
                if all.len() < EVENT_CAP {
                    assert(self.recent@ =~= grown);
                } else if all.len() == EVENT_CAP {
                    assert(self.recent@ =~= grown.skip(grown.len() - EVENT_CAP));
                } else {
                    assert(self.recent@ =~= grown.skip(grown.len() - EVENT_CAP));
                }
            }
        }
    }

    /// Where in `recent` the events pushed since a reader's `cursor` (the
    /// `total` it saw at its last read) begin: `recent.len()` when none are
    /// new, `0` when more arrived than the window keeps. A reader that
    /// catches up at least every `EVENT_CAP` events reads, from here on,
    /// exactly the events pushed since its cursor, so folding each read in
    /// and moving the cursor to `total` takes every event once.
    pub fn unseen_start(&self, cursor: u64) -> (start: usize)
        ensures
            start == self.recent@.len() - (if self.total <= cursor {
                0int
            } else if self.total - cursor < self.recent@.len() {
                self.total - cursor
            } else {
                self.recent@.len() as int
            }),
            forall|all: Seq<E>|
                keeps_tail(self.recent@, self.total as int, all) && cursor <= self.total && self.total - cursor <= EVENT_CAP
                    ==> #[trigger] self.recent@.skip(start as int) == all.skip(cursor as int),
    {
        let new = self.total.saturating_sub(cursor);
        let len = self.recent.len();
        let start = if new < len as u64 {
            len - new as usize
        } else {
            0
        };
        proof {
            assert forall|all: Seq<E>|
                keeps_tail(self.recent@, self.total as int, all) && cursor <= self.total && self.total - cursor <= EVENT_CAP
                    implies #[trigger] self.recent@.skip(start as int) == all.skip(cursor as int) by {
                if all.len() <= EVENT_CAP {
                    assert(self.recent@.skip(start as int) =~= all.skip(cursor as int));
                } else {
                    let off = all.len() - EVENT_CAP;
                    assert(self.recent@.skip(start as int) =~= all.skip(cursor as int));
                }
            }
        }
        start
    }
}

} // verus!
