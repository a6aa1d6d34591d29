//! Role and position that can be observed; reading them waits for nothing.

use super::cursor::{Cursor, CursorModel};
use super::journal::{Error, Journal};
use crate::buffer;
use crate::persistence::role::Role;
use crate::replication::journal;
use bytes::Bytes;
use vstd::prelude::*;

verus! {

#[derive(Clone, Copy, Debug, PartialEq, Eq)]
pub struct Status {
    pub role: Role,
    pub applied: Cursor,
    pub upstream_sequence: Option<u64>,
    pub connected: bool,
    pub full_syncs: u64,
    pub partial_syncs: u64,
    pub reconnects: u64,
    pub generation: u64,
}

/// One more, unless the counter is at its end.
pub open spec fn counted(value: u64) -> u64 {
    if value == u64::MAX {
        value
    } else {
        (value + 1) as u64
    }
}

fn count(value: u64) -> (result: u64)
    ensures
        result == counted(value),
{
    if value == u64::MAX {
        value
    } else {
        value + 1
    }
}

/// Whether a session of this generation may still change what is observed.
pub open spec fn current(status: Status, generation: u64) -> bool {
    status.role is Replica && status.generation == generation
}

/// What is observed once a session is connected.
pub open spec fn connection(
    status: Status,
    generation: u64,
    upstream_sequence: u64,
    full: bool,
) -> Status {
    if !current(status, generation) {
        status
    } else {
        Status {
            connected: true,
            upstream_sequence: Some(upstream_sequence),
            full_syncs: if full {
                counted(status.full_syncs)
            } else {
                status.full_syncs
            },
            partial_syncs: if full {
                status.partial_syncs
            } else {
                counted(status.partial_syncs)
            },
            ..status
        }
    }
}

/// Role, position and history of one server.
pub struct Runtime {
    status: Status,
    journal: Option<Journal>,
}

impl Runtime {
    /// What was observed last, the history aside.
    pub closed spec fn state(&self) -> Status {
        self.status
    }

    /// The history of a primary.
    pub closed spec fn kept(&self) -> Option<Journal> {
        self.journal
    }

    /// Whether this is the applied position: the head of an open history, or what
    /// was applied last.
    pub open spec fn applies(&self, cursor: CursorModel) -> bool {
        match self.kept() {
            Some(journal) if !journal.history().closed => cursor == journal.history().head,
            _ => cursor == self.state().applied.model(),
        }
    }

    pub closed spec fn wf(&self) -> bool {
        self.journal matches Some(journal) ==> journal.wf()
    }

    pub fn new(role: Role, applied: Cursor) -> (result: Self)
        ensures
            result.wf(),
            result.kept() is None,
            result.state() == (Status {
                role,
                applied,
                upstream_sequence: None,
                connected: false,
                full_syncs: 0,
                partial_syncs: 0,
                reconnects: 0,
                generation: 0,
            }),
    {
        Runtime {
            status: Status {
                role,
                applied,
                upstream_sequence: None,
                connected: false,
                full_syncs: 0,
                partial_syncs: 0,
                reconnects: 0,
                generation: 0,
            },
            journal: None,
        }
    }

    /// What is observed; the head of an open history is the applied position.
    pub fn status(&self) -> (result: Status)
        requires
            self.wf(),
        ensures
            result == (Status { applied: result.applied, ..self.state() }),
            self.applies(result.applied.model()),
            !(self.kept() matches Some(journal) && !journal.history().closed) ==> result.applied
                == self.state().applied,
    {
        let mut status = self.status;
        if let Some(journal) = &self.journal {
            if let Ok(head) = journal.status() {
                status.applied = head.head;
            }
        }
        status
    }

    pub fn readonly(&self) -> (result: bool)
        ensures
            result == (self.state().role is Replica),
    {
        self.status.role == Role::Replica
    }

    pub fn journal(&self) -> (result: Option<&Journal>)
        requires
            self.wf(),
        ensures
            match (result, self.kept()) {
                (Some(journal), Some(kept)) => *journal == kept && kept.wf(),
                (None, None) => true,
                _ => false,
            },
    {
        match &self.journal {
            Some(journal) => Some(journal),
            None => None,
        }
    }

    /// Hands a recorded batch to the history, where there is one.
    pub fn publish(&mut self, sequence: u64, frame: Bytes) -> (result: Result<(), Error>)
        requires
            old(self).wf(),
        ensures
            final(self).wf(),
            final(self).state() == old(self).state(),
            match (old(self).kept(), final(self).kept()) {
                (None, None) => result == Ok::<(), Error>(()),
                (Some(before), Some(after)) => {
                    let fault = journal::publish_fault(
                        before.history(),
                        sequence,
                        buffer::bytes_content(frame),
                        before.limits(),
                    );
                    &&& after.limits() == before.limits()
                    &&& match fault {
                        Some(error) => result == Err::<(), Error>(error) && after.history()
                            == before.history(),
                        None => result == Ok::<(), Error>(()) && after.history()
                            == journal::published(
                            before.history(),
                            buffer::bytes_content(frame),
                            before.limits(),
                        ),
                    }
                },
                _ => false,
            },
    {
        match self.journal.take() {
            None => Ok(()),
            Some(journal) => {
                let mut journal = journal;
                let result = journal.publish(sequence, frame);
                self.journal = Some(journal);
                result
            },
        }
    }

    /// A new session; those before it no longer change what is observed.
    pub fn begin_session(&mut self) -> (generation: u64)
        requires
            old(self).wf(),
            old(self).state().generation < u64::MAX,
        ensures
            final(self).wf(),
            final(self).kept() == old(self).kept(),
            generation == old(self).state().generation + 1,
            final(self).state() == (Status {
                generation,
                connected: false,
                reconnects: counted(old(self).state().reconnects),
                ..old(self).state()
            }),
    {
        self.status.generation = self.status.generation + 1;
        self.status.connected = false;
        self.status.reconnects = count(self.status.reconnects);
        self.status.generation
    }

    pub fn accepts(&self, generation: u64) -> (result: bool)
        ensures
            result == current(self.state(), generation),
    {
        self.status.role == Role::Replica && self.status.generation == generation
    }

    pub fn applied(&mut self, cursor: Cursor)
        requires
            old(self).wf(),
        ensures
            final(self).wf(),
            final(self).kept() == old(self).kept(),
            final(self).state() == (Status { applied: cursor, ..old(self).state() }),
    {
        self.status.applied = cursor;
    }

    pub fn connected(&mut self, generation: u64, upstream_sequence: u64, full: bool)
        requires
            old(self).wf(),
        ensures
            final(self).wf(),
            final(self).kept() == old(self).kept(),
            final(self).state() == connection(
                old(self).state(),
                generation,
                upstream_sequence,
                full,
            ),
    {
        if self.status.generation != generation || self.status.role != Role::Replica {
            return ;
        }
        self.status.connected = true;
        self.status.upstream_sequence = Some(upstream_sequence);
        if full {
            self.status.full_syncs = count(self.status.full_syncs);
        } else {
            self.status.partial_syncs = count(self.status.partial_syncs);
        }
    }

    pub fn upstream_head(&mut self, generation: u64, sequence: u64)
        requires
            old(self).wf(),
        ensures
            final(self).wf(),
            final(self).kept() == old(self).kept(),
            final(self).state() == if current(old(self).state(), generation) {
                Status { upstream_sequence: Some(sequence), ..old(self).state() }
            } else {
                old(self).state()
            },
    {
        if self.status.generation == generation && self.status.role == Role::Replica {
            self.status.upstream_sequence = Some(sequence);
        }
    }

    pub fn disconnected(&mut self, generation: u64)
        requires
            old(self).wf(),
        ensures
            final(self).wf(),
            final(self).kept() == old(self).kept(),
            final(self).state() == if old(self).state().generation == generation {
                Status { connected: false, ..old(self).state() }
            } else {
                old(self).state()
            },
    {
        if self.status.generation == generation {
            self.status.connected = false;
        }
    }

    /// Called once role and epoch are recorded, with the history of the new epoch.
    pub fn primary(&mut self, cursor: Cursor, journal: Journal)
        requires
            old(self).wf(),
            journal.wf(),
            old(self).state().generation < u64::MAX,
        ensures
            final(self).wf(),
            final(self).kept() == Some(journal),
            final(self).state() == (Status {
                role: Role::Primary,
                applied: cursor,
                connected: false,
                generation: (old(self).state().generation + 1) as u64,
                ..old(self).state()
            }),
    {
        self.status.role = Role::Primary;
        self.status.applied = cursor;
        self.status.connected = false;
        self.status.generation = self.status.generation + 1;
        self.journal = Some(journal);
    }
}

/// A session that a later one has replaced changes nothing that is observed.
pub proof fn law_stale_sessions_change_nothing(
    status: Status,
    generation: u64,
    upstream_sequence: u64,
    full: bool,
)
    requires
        !current(status, generation),
    ensures
        connection(status, generation, upstream_sequence, full) == status,
{
}

} // verus!
