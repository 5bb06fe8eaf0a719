//! The decisions of the log thread: when to look at the queues, when to spin
//! and when to sleep, and how a round drains the queues one after the other.
//! The thread itself (the waiting, the queues, the handlers) runs outside the
//! library and feeds back what each action found.
use vstd::prelude::*;

use crate::text::{chars_of, lower_case, spec_lower, is_ascii_text, ascii_lower};

verus! {

/// The number of queues that records are spread over.
pub const QUEUE_COUNT: usize = 64;

/// How long the thread spins on empty queues before it sleeps, in nanoseconds.
pub const SPIN_NANOS: u64 = 10_000_000;

/// How long the thread sleeps when nothing came while it spun, in milliseconds.
pub const SLEEP_MILLIS: u64 = 500;

/// The queue that the records of a thread go to.
pub fn queue_of(thread: usize) -> (r: usize)
    ensures
        r == thread % QUEUE_COUNT,
        r < QUEUE_COUNT,
{
    thread % QUEUE_COUNT
}

/// Where the log thread stands.
#[derive(Clone, Copy, Debug, PartialEq, Eq, Structural)]
pub enum Stage {
    /// About to look whether every record sent was received; `fresh` when the
    /// wait starts anew.
    Looking { fresh: bool },
    /// The queues were found empty: about to yield and see how long it waited.
    Spinning,
    /// About to sleep.
    Sleeping,
    /// Draining a round: the next queue to pop and the records received so far
    /// in this round.
    Draining { next: usize, received: usize },
    /// A round is over: about to count the records it received.
    Publishing { received: usize },
    /// Every queue gave a record: about to yield before the next round.
    Resting,
}

/// What the thread is to do next.
#[derive(Clone, Copy, Debug, PartialEq, Eq, Structural)]
pub enum Action {
    /// Start timing the wait, then look whether every record sent was received.
    StartWait,
    /// Look again whether every record sent was received.
    Look,
    /// Yield the processor, then measure how long the wait has lasted.
    Yield,
    /// Sleep this many milliseconds.
    Sleep(u64),
    /// Pop a record from this queue and handle it if there is one, then yield.
    Pop(usize),
    /// Add this many records to the count of records received.
    Publish(usize),
    /// Yield the processor before the next round.
    Rest,
}

/// What an action found.
#[derive(Clone, Copy, Debug, PartialEq, Eq, Structural)]
pub enum Event {
    /// Whether every record sent was received.
    Looked(bool),
    /// How long the wait has lasted, in nanoseconds.
    Yielded(u64),
    /// Whether the queue gave a record.
    Popped(bool),
    /// The action is done.
    Done,
}

/// The stages that can be reached: a round is within the queues and has not
/// received more records than it popped queues.
pub open spec fn stage_wf(s: Stage) -> bool {
    match s {
        Stage::Draining { next, received } => next < QUEUE_COUNT && received <= next,
        Stage::Publishing { received } => received <= QUEUE_COUNT,
        _ => true,
    }
}

/// The action that a stage calls for.
pub open spec fn pending(s: Stage) -> Action {
    match s {
        Stage::Looking { fresh } => if fresh {
            Action::StartWait
        } else {
            Action::Look
        },
        Stage::Spinning => Action::Yield,
        Stage::Sleeping => Action::Sleep(SLEEP_MILLIS),
        Stage::Draining { next, received } => Action::Pop(next),
        Stage::Publishing { received } => Action::Publish(received),
        Stage::Resting => Action::Rest,
    }
}

/// The stage after what the pending action found. An event that does not
/// answer the pending action leaves the stage as it is.
pub open spec fn transition(s: Stage, e: Event) -> Stage {
    match (s, e) {
        (Stage::Looking { .. }, Event::Looked(empty)) => if empty {
            Stage::Spinning
        } else {
            Stage::Draining { next: 0, received: 0 }
        },
        (Stage::Spinning, Event::Yielded(waited)) => if waited > SPIN_NANOS {
            Stage::Sleeping
        } else {
            Stage::Looking { fresh: false }
        },
        (Stage::Sleeping, Event::Done) => Stage::Looking { fresh: true },
        (Stage::Draining { next, received }, Event::Popped(got)) => {
            let r = if got {
                received + 1
            } else {
                received as int
            };
            if next + 1 < QUEUE_COUNT {
                Stage::Draining { next: (next + 1) as usize, received: r as usize }
            } else {
                Stage::Publishing { received: r as usize }
            }
        },
        (Stage::Publishing { received }, Event::Done) => if received < QUEUE_COUNT {
            Stage::Looking { fresh: true }
        } else {
            Stage::Resting
        },
        (Stage::Resting, Event::Done) => Stage::Draining { next: 0, received: 0 },
        _ => s,
    }
}

/// The stage after a run of events, each answering the action before it.
pub open spec fn run(s: Stage, events: Seq<Event>) -> Stage
    decreases events.len(),
{
    if events.len() == 0 {
        s
    } else {
        run(transition(s, events[0]), events.drop_first())
    }
}

/// What the pops of a round found, as events.
pub open spec fn pops(got: Seq<bool>) -> Seq<Event> {
    got.map_values(|g: bool| Event::Popped(g))
}

/// How many pops gave a record.
pub open spec fn got_count(got: Seq<bool>) -> nat
    decreases got.len(),
{
    if got.len() == 0 {
        0
    } else {
        (if got[0] {
            1nat
        } else {
            0nat
        }) + got_count(got.drop_first())
    }
}

proof fn lemma_round_from(next: usize, received: usize, got: Seq<bool>)
    requires
        received <= next < QUEUE_COUNT,
        next + got.len() <= QUEUE_COUNT,
    ensures
        run(Stage::Draining { next, received }, pops(got)) == (if got.len() == 0 {
            Stage::Draining { next, received }
        } else if next + got.len() < QUEUE_COUNT {
            Stage::Draining {
                next: (next + got.len()) as usize,
                received: (received + got_count(got)) as usize,
            }
        } else {
            Stage::Publishing { received: (received + got_count(got)) as usize }
        }),
        received + got_count(got) <= next + got.len(),
    decreases got.len(),
{
    assert(pops(got).len() == got.len());
    if got.len() > 0 {
        let rest = got.drop_first();
        assert(pops(got)[0] == Event::Popped(got[0]));
        assert(pops(got).drop_first() =~= pops(rest));
        assert(run(Stage::Draining { next, received }, pops(got)) == run(
            transition(Stage::Draining { next, received }, Event::Popped(got[0])),
            pops(rest),
        ));
        let r: usize = if got[0] {
            (received + 1) as usize
        } else {
            received
        };
        assert(got_count(got) == (if got[0] {
            1nat
        } else {
            0nat
        }) + got_count(rest));
        assert(transition(Stage::Draining { next, received }, Event::Popped(got[0])) == (if next + 1
            < QUEUE_COUNT {
            Stage::Draining { next: (next + 1) as usize, received: r }
        } else {
            Stage::Publishing { received: r }
        }));
        if rest.len() == 0 {
            assert(pops(rest).len() == 0);
            assert(got_count(rest) == 0);
        } else {
            lemma_round_from((next + 1) as usize, r, rest);
        }
    }
}

/// A round pops the queues one after the other, from the first to the last,
/// then counts as received exactly the records that the pops gave; it drains
/// again at once if every queue gave one, and otherwise goes back to waiting.
pub proof fn lemma_round(got: Seq<bool>)
    requires
        got.len() == QUEUE_COUNT,
    ensures
        forall|i: int|
            0 <= i < QUEUE_COUNT ==> pending(
                #[trigger] run(Stage::Draining { next: 0, received: 0 }, pops(got.take(i))),
            ) == Action::Pop(i as usize),
        run(Stage::Draining { next: 0, received: 0 }, pops(got)) == (Stage::Publishing {
            received: got_count(got) as usize,
        }),
        transition(run(Stage::Draining { next: 0, received: 0 }, pops(got)), Event::Done) == (
        if got_count(got) < QUEUE_COUNT {
            Stage::Looking { fresh: true }
        } else {
            Stage::Resting
        }),
{
    assert forall|i: int| 0 <= i < QUEUE_COUNT implies pending(
        #[trigger] run(Stage::Draining { next: 0, received: 0 }, pops(got.take(i))),
    ) == Action::Pop(i as usize) by {
        lemma_round_from(0, 0, got.take(i));
    }
    lemma_round_from(0, 0, got);
}

/// The thread only goes to sleep after it found the queues empty and then
/// spun for longer than `SPIN_NANOS`.
pub proof fn lemma_sleeps_after_spinning(s: Stage, e: Event)
    requires
        transition(s, e) == Stage::Sleeping,
        s != Stage::Sleeping,
    ensures
        s == Stage::Spinning,
        e matches Event::Yielded(waited) && waited > SPIN_NANOS,
{
}

/// Every step leads to a stage that can be reached.
pub proof fn lemma_transition_reachable(s: Stage, e: Event)
    requires
        stage_wf(s),
    ensures
        stage_wf(transition(s, e)),
{
}

/// The state of the log thread.
pub struct LogThread {
    stage: Stage,
}

impl View for LogThread {
    type V = Stage;

    closed spec fn view(&self) -> Stage {
        self.stage
    }
}

impl LogThread {
    #[verifier::type_invariant]
    spec fn reachable(self) -> bool {
        stage_wf(self.stage)
    }

    /// A thread that starts by waiting for records.
    pub fn start() -> (r: (LogThread, Action))
        ensures
            r.0@ == (Stage::Looking { fresh: true }),
            r.1 == Action::StartWait,
            stage_wf(r.0@),
    {
        (LogThread { stage: Stage::Looking { fresh: true } }, Action::StartWait)
    }

    /// The stage the thread stands at.
    pub fn stage(&self) -> (r: Stage)
        ensures
            r == self@,
            stage_wf(r),
    {
        proof {
            use_type_invariant(self);
        }
        self.stage
    }

    /// Takes in what the pending action found and tells what to do next.
    pub fn step(&mut self, event: Event) -> (a: Action)
        ensures
            final(self)@ == transition(old(self)@, event),
            a == pending(final(self)@),
            stage_wf(final(self)@),
    {
        proof {
            use_type_invariant(&*self);
        }
        let next_stage = match (self.stage, event) {
            (Stage::Looking { .. }, Event::Looked(empty)) => if empty {
                Stage::Spinning
            } else {
                Stage::Draining { next: 0, received: 0 }
            },
            (Stage::Spinning, Event::Yielded(waited)) => if waited > SPIN_NANOS {
                Stage::Sleeping
            } else {
                Stage::Looking { fresh: false }
            },
            (Stage::Sleeping, Event::Done) => Stage::Looking { fresh: true },
            (Stage::Draining { next, received }, Event::Popped(got)) => {
                let r = if got {
                    received + 1
                } else {
                    received
                };
                if next + 1 < QUEUE_COUNT {
                    Stage::Draining { next: next + 1, received: r }
                } else {
                    Stage::Publishing { received: r }
                }
            },
            (Stage::Publishing { received }, Event::Done) => if received < QUEUE_COUNT {
                Stage::Looking { fresh: true }
            } else {
                Stage::Resting
            },
            (Stage::Resting, Event::Done) => Stage::Draining { next: 0, received: 0 },
            _ => self.stage,
        };
        self.stage = next_stage;
        match next_stage {
            Stage::Looking { fresh } => if fresh {
                Action::StartWait
            } else {
                Action::Look
            },
            Stage::Spinning => Action::Yield,
            Stage::Sleeping => Action::Sleep(SLEEP_MILLIS),
            Stage::Draining { next, received } => Action::Pop(next),
            Stage::Publishing { received } => Action::Publish(received),
            Stage::Resting => Action::Rest,
        }
    }
}

/// A setting of the log thread read from the environment can be read when its
/// lower-case form starts with a character of one byte.
pub open spec fn setting_readable(setting: Seq<char>) -> bool {
    spec_lower(setting).len() > 0 && (spec_lower(setting)[0] as u32) < 128
}

/// A setting asks for the log thread when the first character of its
/// lower-case form is `y` or `1`.
pub open spec fn setting_on(setting: Seq<char>) -> bool {
    spec_lower(setting)[0] == 'y' || spec_lower(setting)[0] == '1'
}

/// Whether records go through the log thread: as the setting read from the
/// environment says, if there is one, else as configured.
pub fn thread_wanted(setting: Option<&str>, configured: bool) -> (r: bool)
    requires
        setting matches Some(s) ==> setting_readable(s@),
    ensures
        r == match setting {
            Some(s) => setting_on(s@),
            None => configured,
        },
        match setting {
            Some(s) => is_ascii_text(s@) ==> r == (ascii_lower(s@[0]) == 'y' || s@[0] == '1'),
            None => true,
        },
{
    match setting {
        None => configured,
        Some(s) => {
            let lower = lower_case(s);
            let cs = chars_of(lower.as_str());
            cs[0] == 'y' || cs[0] == '1'
        },
    }
}

/// As `thread_wanted`, with `None` for a setting that cannot be read.
pub fn try_thread_wanted(setting: Option<&str>, configured: bool) -> (r: Option<bool>)
    ensures
        r == match setting {
            Some(s) => if setting_readable(s@) {
                Some(setting_on(s@))
            } else {
                None
            },
            None => Some(configured),
        },
        match setting {
            Some(s) => is_ascii_text(s@) && s@.len() > 0 ==> r == Some(
                ascii_lower(s@[0]) == 'y' || s@[0] == '1',
            ),
            None => true,
        },
{
    match setting {
        None => Some(thread_wanted(None, configured)),
        Some(s) => {
            let lower = lower_case(s);
            let cs = chars_of(lower.as_str());
            if cs.len() > 0 && (cs[0] as u32) < 128 {
                Some(thread_wanted(Some(s), configured))
            } else {
                None
            }
        },
    }
}

} // verus!
