//! What the server decides while it starts, serves and stops. Listeners, tasks
//! and clocks stay with the caller, which tells what happened and does what it
//! is told.

use crate::error::ConfigError;
use crate::persistence::role::{ReplicationMetadata, Role};
use crate::replication::cursor::{Cursor, CursorModel};
use crate::replication::cursor;
use vstd::prelude::*;

verus! {

/// The role of a server that starts: what its log says, or what its upstream
/// makes of it.
pub open spec fn role_of(metadata: Option<ReplicationMetadata>, upstream: bool) -> Role {
    match metadata {
        Some(metadata) => if metadata.role == Role::Primary || !upstream {
            Role::Primary
        } else {
            Role::Replica
        },
        None => if upstream {
            Role::Replica
        } else {
            Role::Primary
        },
    }
}

/// The role of a server that starts.
pub fn starting_role(metadata: Option<ReplicationMetadata>, upstream: bool) -> (result: Role)
    ensures
        result == role_of(metadata, upstream),
{
    match metadata {
        Some(metadata) => if metadata.role == Role::Primary || !upstream {
            Role::Primary
        } else {
            Role::Replica
        },
        None => if upstream {
            Role::Replica
        } else {
            Role::Primary
        },
    }
}

/// The position of a server that starts, in the epoch that its log belongs to.
pub fn starting_position(metadata: Option<ReplicationMetadata>, sequence: u64) -> (result: Cursor)
    ensures
        result.model() == (CursorModel {
            epoch: match metadata {
                Some(metadata) => metadata.epoch@,
                None => cursor::no_epoch(),
            },
            sequence,
        }),
{
    let epoch: [u8; 16] = match metadata {
        Some(metadata) => metadata.epoch,
        None => [0; 16],
    };
    let result = Cursor { epoch, sequence };
    assert(metadata is None ==> result.model().epoch =~= cursor::no_epoch());
    result
}

/// Refuses a log of a replica where no upstream is configured; only a promotion
/// changes the role.
pub fn check_role(metadata: Option<ReplicationMetadata>, upstream: bool) -> (result: Result<
    (),
    ConfigError,
>)
    ensures
        result == if !upstream && (metadata matches Some(metadata) && metadata.role == Role::Replica) {
            Err::<(), ConfigError>(
                ConfigError::InvalidServerLimits {
                    reason: "réplica persistida exige upstream configurado; use promoção local para trocar o papel",
                },
            )
        } else {
            Ok(())
        },
{
    match metadata {
        Some(metadata) => if metadata.role == Role::Replica && !upstream {
            return Err(
                ConfigError::InvalidServerLimits {
                    reason: "réplica persistida exige upstream configurado; use promoção local para trocar o papel",
                },
            );
        },
        None => {},
    }
    Ok(())
}

/// What replication does before the first session.
#[derive(Clone, Copy, Debug, PartialEq, Eq, Structural)]
pub enum Start {
    /// A new epoch begins.
    Promote,
    /// What the server holds becomes its first state as a replica.
    Install,
    /// The log is that of a replica already.
    Follow,
}

/// What replication does before the first session.
pub fn replication_start(readonly: bool, recorded: bool) -> (result: Start)
    ensures
        result == if !readonly {
            Start::Promote
        } else if !recorded {
            Start::Install
        } else {
            Start::Follow
        },
{
    if !readonly {
        Start::Promote
    } else if !recorded {
        Start::Install
    } else {
        Start::Follow
    }
}

/// Why a server ended.
#[derive(Clone, Copy, Debug, PartialEq, Eq, Structural)]
pub enum Failure {
    Listener,
    WorkerStopped,
    WorkerFailed,
    ShutdownTimeout,
}

/// What happened.
#[derive(Clone, Copy, Debug, PartialEq, Eq, Structural)]
pub enum Event {
    /// The signal to stop came.
    Stop,
    /// A task of the server ended, by itself or with a failure.
    WorkerEnded { failed: bool },
    ConnectionEnded,
    /// A connection came in; whether a slot was free, and whether its socket
    /// could be set up.
    Accepted { slot: bool, ready: bool },
    AcceptFailed,
    /// The time to drain is over.
    DeadlineReached,
}

/// What to do.
#[derive(Clone, Copy, Debug, PartialEq, Eq, Structural)]
pub enum Reaction {
    /// Nothing.
    Wait,
    /// Serve the connection that came in.
    Serve,
    /// Refuse it: there are enough.
    Refuse,
    /// Give it up: its socket failed.
    GiveUp,
    /// Close the listener, tell all tasks to stop and wait for them.
    Drain,
    /// Abort what is left, and end.
    Abort,
    /// End.
    End,
}

/// What a supervisor knows.
#[derive(Clone, Copy, Debug, PartialEq, Eq, Structural)]
pub struct Supervisor {
    pub draining: bool,
    pub failure: Option<Failure>,
    pub workers: usize,
    pub connections: usize,
}

/// One less.
pub open spec fn less(count: usize) -> usize {
    if count == 0 {
        0
    } else {
        (count - 1) as usize
    }
}

/// The state in which nothing new is taken in; the first failure stays.
pub open spec fn drained(state: Supervisor, failure: Option<Failure>) -> Supervisor {
    Supervisor {
        draining: true,
        failure: if state.failure is Some {
            state.failure
        } else {
            failure
        },
        ..state
    }
}

/// Whether to go on waiting or to end, once nothing new is taken in.
pub open spec fn settled(state: Supervisor) -> Reaction {
    if state.workers == 0 && state.connections == 0 {
        Reaction::End
    } else {
        Reaction::Wait
    }
}

/// What an event leads to.
pub open spec fn reacted(state: Supervisor, event: Event) -> (Supervisor, Reaction) {
    match event {
        Event::Stop => if state.draining {
            (state, settled(state))
        } else {
            (drained(state, None), Reaction::Drain)
        },
        Event::WorkerEnded { failed } => {
            let left = Supervisor { workers: less(state.workers), ..state };
            if state.draining {
                let next = if failed {
                    drained(left, Some(Failure::WorkerFailed))
                } else {
                    left
                };
                (next, settled(next))
            } else {
                (
                    drained(
                        left,
                        Some(
                            if failed {
                                Failure::WorkerFailed
                            } else {
                                Failure::WorkerStopped
                            },
                        ),
                    ),
                    Reaction::Drain,
                )
            }
        },
        Event::ConnectionEnded => {
            let left = Supervisor { connections: less(state.connections), ..state };
            (
                left,
                if state.draining {
                    settled(left)
                } else {
                    Reaction::Wait
                },
            )
        },
        Event::Accepted { slot, ready } => if state.draining || !slot {
            (state, Reaction::Refuse)
        } else if !ready || state.connections == usize::MAX {
            (state, Reaction::GiveUp)
        } else {
            (
                Supervisor { connections: (state.connections + 1) as usize, ..state },
                Reaction::Serve,
            )
        },
        Event::AcceptFailed => if state.draining {
            (state, settled(state))
        } else {
            (drained(state, Some(Failure::Listener)), Reaction::Drain)
        },
        Event::DeadlineReached => (
            Supervisor {
                draining: true,
                failure: Some(Failure::ShutdownTimeout),
                workers: 0,
                connections: 0,
            },
            Reaction::Abort,
        ),
    }
}

fn one_less(count: usize) -> (result: usize)
    ensures
        result == less(count),
{
    if count == 0 {
        0
    } else {
        count - 1
    }
}

impl Supervisor {
    /// A server that takes connections in, with this many tasks.
    pub fn new(workers: usize) -> (result: Self)
        ensures
            result == (Supervisor { draining: false, failure: None, workers, connections: 0 }),
    {
        Supervisor { draining: false, failure: None, workers, connections: 0 }
    }

    fn drain(&mut self, failure: Option<Failure>)
        ensures
            *final(self) == drained(*old(self), failure),
    {
        self.draining = true;
        if self.failure.is_none() {
            self.failure = failure;
        }
    }

    /// Whether all that was taken in has ended.
    pub fn settle(&self) -> (result: Reaction)
        ensures
            result == settled(*self),
    {
        if self.workers == 0 && self.connections == 0 {
            Reaction::End
        } else {
            Reaction::Wait
        }
    }

    /// Takes an event and says what to do.
    pub fn react(&mut self, event: Event) -> (result: Reaction)
        ensures
            (*final(self), result) == reacted(*old(self), event),
    {
        match event {
            Event::Stop => {
                if self.draining {
                    return self.settle();
                }
                self.drain(None);
                Reaction::Drain
            },
            Event::WorkerEnded { failed } => {
                self.workers = one_less(self.workers);
                if self.draining {
                    if failed {
                        self.drain(Some(Failure::WorkerFailed));
                    }
                    return self.settle();
                }
                self.drain(
                    Some(
                        if failed {
                            Failure::WorkerFailed
                        } else {
                            Failure::WorkerStopped
                        },
                    ),
                );
                Reaction::Drain
            },
            Event::ConnectionEnded => {
                self.connections = one_less(self.connections);
                if self.draining {
                    self.settle()
                } else {
                    Reaction::Wait
                }
            },
            Event::Accepted { slot, ready } => {
                if self.draining || !slot {
                    return Reaction::Refuse;
                }
                if !ready || self.connections == usize::MAX {
                    return Reaction::GiveUp;
                }
                self.connections = self.connections + 1;
                Reaction::Serve
            },
            Event::AcceptFailed => {
                if self.draining {
                    return self.settle();
                }
                self.drain(Some(Failure::Listener));
                Reaction::Drain
            },
            Event::DeadlineReached => {
                self.draining = true;
                self.failure = Some(Failure::ShutdownTimeout);
                self.workers = 0;
                self.connections = 0;
                Reaction::Abort
            },
        }
    }

    /// How the server ended.
    pub fn outcome(&self) -> (result: Result<(), Failure>)
        ensures
            result == match self.failure {
                None => Ok::<(), Failure>(()),
                Some(failure) => Err(failure),
            },
    {
        match self.failure {
            None => Ok(()),
            Some(failure) => Err(failure),
        }
    }
}

/// Where events lead, one after the other.
pub open spec fn reacted_all(state: Supervisor, events: Seq<Event>) -> Supervisor
    decreases events.len(),
{
    if events.len() == 0 {
        state
    } else {
        reacted(reacted_all(state, events.drop_last()), events.last()).0
    }
}

/// Once a server drains, it takes nothing in and never serves again: its tasks
/// and connections only become fewer.
pub proof fn law_draining_servers_only_empty(state: Supervisor, events: Seq<Event>)
    requires
        state.draining,
    ensures
        ({
            let after = reacted_all(state, events);
            &&& after.draining
            &&& after.workers <= state.workers
            &&& after.connections <= state.connections
        }),
    decreases events.len(),
{
    if events.len() > 0 {
        law_draining_servers_only_empty(state, events.drop_last());
    }
}

/// The first failure is the one that is told, unless the time to drain ends.
pub proof fn law_first_failure_is_told(state: Supervisor, events: Seq<Event>)
    requires
        state.failure is Some,
        !events.contains(Event::DeadlineReached),
    ensures
        reacted_all(state, events).failure == state.failure,
    decreases events.len(),
{
    if events.len() > 0 {
        let front = events.drop_last();
        assert(!front.contains(Event::DeadlineReached)) by {
            if front.contains(Event::DeadlineReached) {
                let i = choose|i: int| 0 <= i < front.len() && front[i] == Event::DeadlineReached;
                assert(events[i] == Event::DeadlineReached);
            }
        }
        assert(events[events.len() - 1] != Event::DeadlineReached);
        law_first_failure_is_told(state, front);
    }
}

/// A connection is served only where there is a slot and nothing ends; then it counts until it
/// ends. A server that ends takes nobody in.
pub proof fn law_connections_are_served_within_their_slots(
    state: Supervisor,
    slot: bool,
    ready: bool,
)
    requires
        state.connections < usize::MAX,
    ensures
        ({
            let (after, reaction) = reacted(state, Event::Accepted { slot, ready });
            if !state.draining && slot && ready {
                &&& reaction == Reaction::Serve
                &&& after == (Supervisor {
                    connections: (state.connections + 1) as usize,
                    ..state
                })
                &&& reacted(after, Event::ConnectionEnded).0 == state
            } else {
                &&& after == state
                &&& reaction != Reaction::Serve
            }
        }),
{
}

/// A server that ends waits for all of its tasks and connections, unless its time is over. The end
/// of a task that was not asked for ends the server as a failure.
pub proof fn law_servers_end_when_all_is_done(state: Supervisor, event: Event)
    ensures
        ({
            let (after, reaction) = reacted(state, event);
            &&& reaction == Reaction::End ==> after.workers == 0 && after.connections == 0
                && after.draining
            &&& reaction == Reaction::Abort <==> event is DeadlineReached
            &&& (event is WorkerEnded && !state.draining) ==> after.draining && after.failure
                is Some && reaction == Reaction::Drain
            &&& (event is Stop && !state.draining) ==> after.draining && after.failure
                == state.failure && reaction == Reaction::Drain
            &&& state.draining ==> after.draining
        }),
{
}

} // verus!
