//! The scheduler of reconciliation cycles, as a state machine.
//!
//! The scheduler decides; its caller waits, runs cycles and reports back.
//! One cycle runs at once when the scheduler is started, and one more at
//! every tick. A tick that arrives while a cycle is in flight is dropped, so
//! late ticks never pile up into a burst. A shutdown signal ends the loop at
//! the next cycle boundary: a cycle in flight runs to its end first.

use vstd::prelude::*;

verus! {

/// The interval between ticks, in seconds, unless the embedding application
/// chooses another.
pub const DEFAULT_INTERVAL_SECS: u64 = 10;

/// Where the scheduler stands.
#[derive(Clone, Copy, Debug, PartialEq, Eq, Hash, Structural)]
pub enum Phase {
    /// Created, no cycle run yet.
    Starting,
    /// Between cycles, waiting for a tick or for the shutdown signal.
    Idle,
    /// A cycle is in flight.
    Running,
    /// The loop has ended. Nothing leaves this phase.
    Stopped,
}

/// How a cycle ended. A failed cycle is one that changed nothing; it is
/// never fatal.
#[derive(Clone, Copy, Debug, PartialEq, Eq, Hash, Structural)]
pub enum CycleOutcome {
    Completed,
    Failed,
}

/// What happened outside the scheduler.
#[derive(Clone, Copy, Debug, PartialEq, Eq, Hash, Structural)]
pub enum Event {
    /// The loop has been set going.
    Started,
    /// The interval timer fired.
    Tick,
    /// The shutdown signal changed; the value it has now.
    Shutdown(bool),
    /// The cycle in flight has ended.
    CycleFinished(CycleOutcome),
}

/// What the caller is to do next.
#[derive(Clone, Copy, Debug, PartialEq, Eq, Hash, Structural)]
pub enum Action {
    /// Run one cycle, then report `CycleFinished`.
    RunCycle,
    /// Wait for the next tick or a change of the shutdown signal.
    Wait,
    /// Let the cycle in flight go on.
    KeepRunning,
    /// Leave the loop.
    Stop,
}

/// The mathematical model of a scheduler: its phase, and whether shutdown
/// has been asked for. Once asked for, shutdown is never taken back.
pub struct Machine {
    pub phase: Phase,
    pub stopping: bool,
}

impl Machine {
    /// The state after an event.
    pub open spec fn next(self, event: Event) -> Machine {
        match (self.phase, event) {
            (Phase::Stopped, _) => self,
            (Phase::Starting, Event::Started) => Machine { phase: Phase::Running, ..self },
            (Phase::Starting, Event::Shutdown(on)) => Machine {
                stopping: self.stopping || on,
                ..self
            },
            (Phase::Starting, _) => self,
            (Phase::Idle, Event::Tick) => Machine { phase: Phase::Running, ..self },
            (Phase::Idle, Event::Shutdown(true)) => Machine {
                phase: Phase::Stopped,
                stopping: true,
            },
            (Phase::Idle, _) => self,
            (Phase::Running, Event::CycleFinished(_)) => if self.stopping {
                Machine { phase: Phase::Stopped, ..self }
            } else {
                Machine { phase: Phase::Idle, ..self }
            },
            (Phase::Running, Event::Shutdown(on)) => Machine {
                stopping: self.stopping || on,
                ..self
            },
            (Phase::Running, _) => self,
        }
    }

    /// What the caller is told to do after an event.
    pub open spec fn action(self, event: Event) -> Action {
        let after = self.next(event);
        match after.phase {
            Phase::Stopped => Action::Stop,
            Phase::Starting => Action::Wait,
            Phase::Idle => Action::Wait,
            Phase::Running => if self.phase == Phase::Running {
                Action::KeepRunning
            } else {
                Action::RunCycle
            },
        }
    }

    /// A scheduler that is between cycles has not been asked to shut down:
    /// it would have stopped instead.
    pub open spec fn wf(self) -> bool {
        self.phase == Phase::Idle ==> !self.stopping
    }

    /// The state after a sequence of events.
    pub open spec fn run(self, events: Seq<Event>) -> Machine
        decreases events.len(),
    {
        if events.len() == 0 {
            self
        } else {
            self.run(events.drop_last()).next(events.last())
        }
    }

    /// How many cycles a sequence of events sets going.
    pub open spec fn cycles_started(self, events: Seq<Event>) -> nat
        decreases events.len(),
    {
        if events.len() == 0 {
            0
        } else {
            let before = self.cycles_started(events.drop_last());
            if self.run(events.drop_last()).action(events.last()) == Action::RunCycle {
                before + 1
            } else {
                before
            }
        }
    }
}

/// Every event leaves a well-formed scheduler well-formed, and shutdown,
/// once asked for, stays asked for.
pub proof fn lemma_next_preserves(m: Machine, event: Event)
    requires
        m.wf(),
    ensures
        m.next(event).wf(),
        m.stopping ==> m.next(event).stopping,
        m.phase == Phase::Stopped ==> m.next(event) == m,
{
}

/// Cycles never overlap: a cycle is set going only from a phase in which
/// none is in flight, and a cycle in flight ends only when it reports back.
pub proof fn lemma_one_cycle_at_a_time(m: Machine, event: Event)
    ensures
        m.action(event) == Action::RunCycle ==> m.phase != Phase::Running && m.next(event).phase
            == Phase::Running,
        m.phase == Phase::Running && !(event is CycleFinished) ==> m.next(event).phase
            == Phase::Running && m.action(event) == Action::KeepRunning,
{
}

/// The first cycle runs at once: starting sets a cycle going whatever came
/// before.
pub proof fn lemma_immediate_first_cycle(m: Machine)
    requires
        m.phase == Phase::Starting,
    ensures
        m.next(Event::Started).phase == Phase::Running,
        m.action(Event::Started) == Action::RunCycle,
{
}

/// A tick between cycles sets exactly one cycle going; a tick during a
/// cycle is dropped.
pub proof fn lemma_ticks(m: Machine)
    ensures
        m.phase == Phase::Idle ==> m.action(Event::Tick) == Action::RunCycle,
        m.phase == Phase::Running ==> m.next(Event::Tick) == m && m.action(Event::Tick)
            == Action::KeepRunning,
{
}

/// Shutdown while waiting: the loop ends without another cycle.
pub proof fn lemma_shutdown_while_idle(m: Machine)
    requires
        m.phase == Phase::Idle,
    ensures
        m.next(Event::Shutdown(true)).phase == Phase::Stopped,
        m.action(Event::Shutdown(true)) == Action::Stop,
        m.next(Event::Shutdown(false)) == m,
        m.action(Event::Shutdown(false)) == Action::Wait,
{
}

/// Shutdown while a cycle is in flight: the cycle is left to finish, and the
/// loop ends when it has, however it went.
pub proof fn lemma_shutdown_while_running(m: Machine, outcome: CycleOutcome)
    requires
        m.phase == Phase::Running,
    ensures
        m.next(Event::Shutdown(true)).phase == Phase::Running,
        m.action(Event::Shutdown(true)) == Action::KeepRunning,
        m.next(Event::Shutdown(true)).next(Event::CycleFinished(outcome)).phase == Phase::Stopped,
        m.next(Event::Shutdown(true)).action(Event::CycleFinished(outcome)) == Action::Stop,
{
}

/// A cycle that ends, well or badly, takes the scheduler back to waiting,
/// unless shutdown was asked for.
pub proof fn lemma_cycle_end(m: Machine, outcome: CycleOutcome)
    requires
        m.phase == Phase::Running,
    ensures
        !m.stopping ==> m.next(Event::CycleFinished(outcome)).phase == Phase::Idle && m.action(
            Event::CycleFinished(outcome),
        ) == Action::Wait,
        m.stopping ==> m.next(Event::CycleFinished(outcome)).phase == Phase::Stopped,
        m.next(Event::CycleFinished(outcome)) == m.next(
            Event::CycleFinished(CycleOutcome::Completed),
        ),
{
}

/// Once shutdown has been asked for and the first cycle is under way or
/// over, no sequence of events sets another cycle going, and the scheduler
/// never waits again.
pub proof fn lemma_no_cycle_after_shutdown(m: Machine, events: Seq<Event>)
    requires
        m.wf(),
        m.stopping,
        m.phase != Phase::Starting,
    ensures
        m.cycles_started(events) == 0,
        m.run(events).stopping,
        m.run(events).phase == Phase::Running || m.run(events).phase == Phase::Stopped,
        m.phase == Phase::Stopped ==> m.run(events) == m,
    decreases events.len(),
{
    if events.len() > 0 {
        lemma_no_cycle_after_shutdown(m, events.drop_last());
    }
}

/// Any sequence of events leaves a well-formed scheduler well-formed.
pub proof fn lemma_run_preserves(m: Machine, events: Seq<Event>)
    requires
        m.wf(),
    ensures
        m.run(events).wf(),
    decreases events.len(),
{
    if events.len() > 0 {
        lemma_run_preserves(m, events.drop_last());
        lemma_next_preserves(m.run(events.drop_last()), events.last());
    }
}

/// The receiving end of the channel that carries the shutdown signal. What
/// is inside is tokio's own.
#[verifier::external_type_specification]
#[verifier::external_body]
#[verifier::reject_recursive_types(T)]
pub struct ExReceiver<T>(tokio::sync::watch::Receiver<T>);

/// Reads the shutdown signal with `tokio::sync::watch::Receiver::borrow`,
/// which hands out the value sent last and marks nothing as seen. The value
/// is whatever the sending side has put there by now, so nothing is claimed
/// of it.
#[verifier::external_body]
fn signal_value(signal: &tokio::sync::watch::Receiver<bool>) -> (on: bool) {
    *signal.borrow()
}

/// The scheduler of the reconciliation loop.
#[derive(Debug)]
pub struct Scheduler {
    phase: Phase,
    stopping: bool,
    interval_secs: u64,
}

impl View for Scheduler {
    type V = Machine;

    closed spec fn view(&self) -> Machine {
        Machine { phase: self.phase, stopping: self.stopping }
    }
}

impl Scheduler {
    /// The interval between ticks that the scheduler asks for, in seconds.
    pub closed spec fn interval(&self) -> u64 {
        self.interval_secs
    }

    #[verifier::type_invariant]
    pub closed spec fn wf(self) -> bool {
        self@.wf() && self.interval_secs > 0
    }

    /// A scheduler that has not run a cycle yet, with the default interval.
    pub fn new() -> (r: Self)
        ensures
            r@ == (Machine { phase: Phase::Starting, stopping: false }),
            r.interval() == DEFAULT_INTERVAL_SECS,
    {
        Scheduler { phase: Phase::Starting, stopping: false, interval_secs: DEFAULT_INTERVAL_SECS }
    }

    /// A scheduler that has not run a cycle yet, with the given interval.
    /// `None` for an interval of zero, which no timer can keep.
    pub fn with_interval(secs: u64) -> (r: Option<Self>)
        ensures
            r is Some <==> secs > 0,
            r matches Some(s) ==> s@ == (Machine { phase: Phase::Starting, stopping: false })
                && s.interval() == secs,
    {
        if secs == 0 {
            None
        } else {
            Some(Scheduler { phase: Phase::Starting, stopping: false, interval_secs: secs })
        }
    }

    /// Where the scheduler stands.
    pub fn phase(&self) -> (r: Phase)
        ensures
            r == self@.phase,
            self@.wf(),
    {
        proof {
            use_type_invariant(self);
        }
        self.phase
    }

    /// Whether shutdown has been asked for.
    pub fn is_stopping(&self) -> (r: bool)
        ensures
            r == self@.stopping,
    {
        self.stopping
    }

    /// The interval between ticks, in seconds; never zero.
    pub fn interval_secs(&self) -> (r: u64)
        ensures
            r == self.interval(),
            r > 0,
    {
        proof {
            use_type_invariant(self);
        }
        self.interval_secs
    }

    /// Takes an event and says what to do next.
    pub fn on_event(&mut self, event: Event) -> (action: Action)
        ensures
            final(self)@ == old(self)@.next(event),
            action == old(self)@.action(event),
            final(self).interval() == old(self).interval(),
            final(self)@.wf(),
    {
        proof {
            use_type_invariant(&*self);
            lemma_next_preserves(self@, event);
        }
        let was_running = match self.phase {
            Phase::Running => true,
            _ => false,
        };
        match self.phase {
            Phase::Stopped => {},
            Phase::Starting => {
                match event {
                    Event::Started => {
                        self.phase = Phase::Running;
                    },
                    Event::Shutdown(on) => {
                        if on {
                            self.stopping = true;
                        }
                    },
                    _ => {},
                }
            },
            Phase::Idle => {
                match event {
                    Event::Tick => {
                        self.phase = Phase::Running;
                    },
                    Event::Shutdown(on) => {
                        if on {
                            self.phase = Phase::Stopped;
                            self.stopping = true;
                        }
                    },
                    _ => {},
                }
            },
            Phase::Running => {
                match event {
                    Event::CycleFinished(_) => {
                        if self.stopping {
                            self.phase = Phase::Stopped;
                        } else {
                            self.phase = Phase::Idle;
                        }
                    },
                    Event::Shutdown(on) => {
                        if on {
                            self.stopping = true;
                        }
                    },
                    _ => {},
                }
            },
        }
        match self.phase {
            Phase::Stopped => Action::Stop,
            Phase::Starting => Action::Wait,
            Phase::Idle => Action::Wait,
            Phase::Running => {
                if was_running {
                    Action::KeepRunning
                } else {
                    Action::RunCycle
                }
            },
        }
    }

    /// Looks at the shutdown signal and takes the value it shows as a
    /// `Shutdown` event. Whatever the signal shows, the scheduler moves as
    /// `next` says for that value.
    pub fn observe(&mut self, signal: &tokio::sync::watch::Receiver<bool>) -> (action: Action)
        ensures
            (final(self)@ == old(self)@.next(Event::Shutdown(true)) && action == old(
                self,
            )@.action(Event::Shutdown(true))) || (final(self)@ == old(self)@.next(
                Event::Shutdown(false),
            ) && action == old(self)@.action(Event::Shutdown(false))),
            final(self).interval() == old(self).interval(),
            final(self)@.wf(),
    {
        let on = signal_value(signal);
        self.on_event(Event::Shutdown(on))
    }
}

} // verus!
