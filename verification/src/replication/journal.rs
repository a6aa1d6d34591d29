//! History kept by bytes; a slow reader never holds a publication up.

use super::cursor::{Cursor, CursorModel};
use crate::buffer;
use crate::buffer::length;
use bytes::Bytes;
use std::collections::VecDeque;
use vstd::prelude::*;

verus! {

#[derive(Clone, Copy, Debug, PartialEq, Eq, Structural)]
pub struct Limits {
    pub max_bytes: usize,
    pub max_batches: usize,
    pub max_frame_bytes: usize,
}

impl Limits {
    /// Whether a history can be kept within these limits.
    pub open spec fn is_valid(self) -> bool {
        &&& 1 <= self.max_bytes <= isize::MAX
        &&& self.max_batches >= 1
        &&& 1 <= self.max_frame_bytes <= self.max_bytes
    }
}

#[derive(Clone, Copy, Debug, PartialEq, Eq, Structural)]
pub enum Error {
    /// The limits of the history are not valid, or a frame exceeds them.
    Limit,
    /// The position belongs to another epoch.
    Epoch,
    /// The sequence is not the expected one.
    Sequence,
    /// The history does not reach back far enough; a full synchronisation is needed.
    Lagged,
    /// The history has ended.
    Closed,
}

impl Error {
    pub open spec fn text(self) -> &'static str {
        match self {
            Error::Limit => "limite do histórico inválido",
            Error::Epoch => "época de replicação divergente",
            Error::Sequence => "sequência de replicação inválida",
            Error::Lagged => "histórico insuficiente; sincronização completa necessária",
            Error::Closed => "histórico encerrado",
        }
    }

    pub fn message(self) -> (text: &'static str)
        ensures
            text == self.text(),
    {
        match self {
            Error::Limit => "limite do histórico inválido",
            Error::Epoch => "época de replicação divergente",
            Error::Sequence => "sequência de replicação inválida",
            Error::Lagged => "histórico insuficiente; sincronização completa necessária",
            Error::Closed => "histórico encerrado",
        }
    }
}

#[derive(Clone, Debug, PartialEq, Eq)]
pub struct Entry {
    pub cursor: Cursor,
    pub frame: Bytes,
}

/// An entry by content.
#[verifier::ext_equal]
pub struct EntryModel {
    pub cursor: CursorModel,
    pub frame: Seq<u8>,
}

impl Entry {
    pub open spec fn model(self) -> EntryModel {
        EntryModel { cursor: self.cursor.model(), frame: buffer::bytes_content(self.frame) }
    }
}

#[derive(Clone, Copy, Debug, PartialEq, Eq)]
pub struct Status {
    pub head: Cursor,
    pub oldest_sequence: Option<u64>,
    pub bytes: usize,
    pub batches: usize,
}

/// A history by content: the last frames, the newest of which stands at the head.
#[verifier::ext_equal]
pub struct History {
    pub head: CursorModel,
    pub frames: Seq<Seq<u8>>,
    pub closed: bool,
}

/// The bytes of some frames.
pub open spec fn total(frames: Seq<Seq<u8>>) -> nat
    decreases frames.len(),
{
    if frames.len() == 0 {
        0
    } else {
        frames[0].len() + total(frames.skip(1))
    }
}

/// The longest run of last frames beside which one more of this size fits.
pub open spec fn retained(frames: Seq<Seq<u8>>, size: nat, limits: Limits) -> Seq<Seq<u8>>
    decreases frames.len(),
{
    if frames.len() == 0 || (total(frames) + size <= limits.max_bytes && frames.len()
        < limits.max_batches) {
        frames
    } else {
        retained(frames.skip(1), size, limits)
    }
}

/// Why a frame cannot be published.
pub open spec fn publish_fault(
    history: History,
    sequence: u64,
    frame: Seq<u8>,
    limits: Limits,
) -> Option<Error> {
    if frame.len() == 0 || frame.len() > limits.max_frame_bytes {
        Some(Error::Limit)
    } else if history.closed {
        Some(Error::Closed)
    } else if history.head.sequence + 1 != sequence {
        Some(Error::Sequence)
    } else {
        None
    }
}

/// The history after a frame was published.
pub open spec fn published(history: History, frame: Seq<u8>, limits: Limits) -> History {
    History {
        head: CursorModel {
            epoch: history.head.epoch,
            sequence: (history.head.sequence + 1) as u64,
        },
        frames: retained(history.frames, frame.len(), limits).push(frame),
        closed: history.closed,
    }
}

/// The sequence of the oldest frame.
pub open spec fn oldest(history: History) -> int {
    history.head.sequence - history.frames.len() + 1
}

/// What follows a position that was already handed out: nothing yet at the
/// head, else the frame of the next sequence.
pub open spec fn following(history: History, cursor: CursorModel) -> Result<
    Option<EntryModel>,
    Error,
> {
    if history.closed {
        Err(Error::Closed)
    } else if cursor.epoch != history.head.epoch {
        Err(Error::Epoch)
    } else if cursor.sequence > history.head.sequence {
        Err(Error::Sequence)
    } else if cursor.sequence == history.head.sequence {
        Ok(None)
    } else if cursor.sequence + 1 < oldest(history) {
        Err(Error::Lagged)
    } else {
        Ok(
            Some(
                EntryModel {
                    cursor: CursorModel {
                        epoch: history.head.epoch,
                        sequence: (cursor.sequence + 1) as u64,
                    },
                    frame: history.frames[cursor.sequence + 1 - oldest(history)],
                },
            ),
        )
    }
}

/// Frames by content.
pub open spec fn frames_of(entries: Seq<Entry>) -> Seq<Seq<u8>> {
    entries.map_values(|entry: Entry| buffer::bytes_content(entry.frame))
}

/// The history of one epoch of a primary.
pub struct Journal {
    head: Cursor,
    entries: VecDeque<Entry>,
    bytes: usize,
    closed: bool,
    limits: Limits,
}

proof fn lemma_total_push(frames: Seq<Seq<u8>>, frame: Seq<u8>)
    ensures
        total(frames.push(frame)) == total(frames) + frame.len(),
    decreases frames.len(),
{
    if frames.len() == 0 {
        assert(frames.push(frame).skip(1) =~= frames);
    } else {
        lemma_total_push(frames.skip(1), frame);
        assert(frames.push(frame).skip(1) =~= frames.skip(1).push(frame));
    }
}

/// What is kept is a run of last frames.
pub proof fn lemma_retained(frames: Seq<Seq<u8>>, size: nat, limits: Limits)
    ensures
        ({
            let kept = retained(frames, size, limits);
            &&& kept.len() <= frames.len()
            &&& kept == frames.skip(frames.len() - kept.len())
            &&& kept.len() == 0 || (total(kept) + size <= limits.max_bytes && kept.len()
                < limits.max_batches)
        }),
    decreases frames.len(),
{
    if frames.len() == 0 || (total(frames) + size <= limits.max_bytes && frames.len()
        < limits.max_batches) {
        assert(frames.skip(0) =~= frames);
    } else {
        let rest = frames.skip(1);
        lemma_retained(rest, size, limits);
        let kept = retained(rest, size, limits);
        assert(rest.skip(rest.len() - kept.len()) =~= frames.skip(frames.len() - kept.len()));
    }
}

impl Journal {
    pub closed spec fn history(&self) -> History {
        History {
            head: self.head.model(),
            frames: frames_of(self.entries@),
            closed: self.closed,
        }
    }

    pub closed spec fn limits(&self) -> Limits {
        self.limits
    }

    /// The history stays within its limits: the entries end at the head without
    /// a gap, and their bytes are accounted.
    pub closed spec fn wf(&self) -> bool {
        &&& self.limits.is_valid()
        &&& self.bytes == total(frames_of(self.entries@))
        &&& self.bytes <= self.limits.max_bytes
        &&& self.entries@.len() <= self.limits.max_batches
        &&& self.entries@.len() <= self.head.sequence
        &&& self.closed ==> self.entries@.len() == 0
        &&& forall|i: int|
            0 <= i < self.entries@.len() ==> (#[trigger] self.entries@[i]).cursor.epoch
                == self.head.epoch && self.entries@[i].cursor.sequence == self.head.sequence
                - self.entries@.len() + 1 + i
    }

    /// What the limits say of a history.
    pub proof fn lemma_bounded(&self)
        requires
            self.wf(),
        ensures
            self.limits().is_valid(),
            total(self.history().frames) <= self.limits().max_bytes,
            self.history().frames.len() <= self.limits().max_batches,
            self.history().frames.len() <= self.history().head.sequence,
            self.history().closed ==> self.history().frames.len() == 0,
    {
    }

    pub fn new(head: Cursor, limits: Limits) -> (result: Result<Self, Error>)
        ensures
            match result {
                Ok(journal) => {
                    &&& limits.is_valid()
                    &&& journal.wf()
                    &&& journal.limits() == limits
                    &&& journal.history() == (History {
                        head: head.model(),
                        frames: Seq::empty(),
                        closed: false,
                    })
                },
                Err(error) => !limits.is_valid() && error == Error::Limit,
            },
    {
        if limits.max_bytes == 0 || limits.max_bytes > isize::MAX as usize || limits.max_batches
            == 0 || limits.max_frame_bytes == 0 || limits.max_frame_bytes > limits.max_bytes {
            return Err(Error::Limit);
        }
        let journal = Journal {
            head,
            entries: VecDeque::new(),
            bytes: 0,
            closed: false,
            limits,
        };
        assert(journal.history().frames =~= Seq::empty());
        Ok(journal)
    }

    /// Called once an encoded batch has been recorded. A refusal leaves head and
    /// history as they were.
    pub fn publish(&mut self, sequence: u64, frame: Bytes) -> (result: Result<(), Error>)
        requires
            old(self).wf(),
        ensures
            final(self).wf(),
            final(self).limits() == old(self).limits(),
            match publish_fault(
                old(self).history(),
                sequence,
                buffer::bytes_content(frame),
                old(self).limits(),
            ) {
                Some(error) => result == Err::<(), Error>(error) && final(self).history() == old(self).history(),
                None => result == Ok::<(), Error>(()) && final(self).history() == published(
                    old(self).history(),
                    buffer::bytes_content(frame),
                    old(self).limits(),
                ),
            },
    {
        let size: usize = length(&frame);
        if size == 0 || size > self.limits.max_frame_bytes {
            return Err(Error::Limit);
        }
        if self.closed {
            return Err(Error::Closed);
        }
        if self.head.sequence == u64::MAX || self.head.sequence + 1 != sequence {
            return Err(Error::Sequence);
        }
        let ghost before = *self;
        let ghost content = buffer::bytes_content(frame);
        while self.bytes > self.limits.max_bytes - size || self.entries.len()
            >= self.limits.max_batches
            invariant
                self.wf(),
                self.limits == before.limits,
                self.head == before.head,
                !self.closed,
                before.closed == self.closed,
                1 <= size <= self.limits.max_frame_bytes,
                retained(frames_of(self.entries@), size as nat, self.limits) == retained(
                    frames_of(before.entries@),
                    size as nat,
                    self.limits,
                ),
            decreases self.entries@.len(),
        {
            let ghost frames = frames_of(self.entries@);
            proof {
                assert(self.entries@.len() > 0);
            }
            match self.entries.pop_front() {
                Some(removed) => {
                    proof {
                        assert(frames[0] == buffer::bytes_content(removed.frame));
                        assert(frames.skip(1) =~= frames_of(self.entries@));
                    }
                    self.bytes -= length(&removed.frame);
                },
                None => {
                    return Err(Error::Limit);
                },
            }
        }
        let ghost frames = frames_of(self.entries@);
        assert(frames == retained(frames_of(before.entries@), size as nat, self.limits));
        self.head.sequence = sequence;
        self.bytes += size;
        self.entries.push_back(Entry { cursor: self.head, frame });
        proof {
            lemma_total_push(frames, content);
            assert(frames_of(self.entries@) =~= frames.push(content));
        }
        Ok(())
    }

    pub fn status(&self) -> (result: Result<Status, Error>)
        requires
            self.wf(),
        ensures
            match result {
                Ok(status) => {
                    let history = self.history();
                    &&& !history.closed
                    &&& status.head.model() == history.head
                    &&& status.oldest_sequence == if history.frames.len() == 0 {
                        None::<u64>
                    } else {
                        Some(oldest(history) as u64)
                    }
                    &&& status.bytes == total(history.frames)
                    &&& status.batches == history.frames.len()
                },
                Err(error) => self.history().closed && error == Error::Closed,
            },
    {
        if self.closed {
            return Err(Error::Closed);
        }
        let oldest_sequence = if self.entries.len() == 0 {
            None
        } else {
            Some(self.entries[0].cursor.sequence)
        };
        Ok(
            Status {
                head: self.head,
                oldest_sequence,
                bytes: self.bytes,
                batches: self.entries.len(),
            },
        )
    }

    /// What comes after a position that was already handed out.
    pub fn next(&self, cursor: Cursor) -> (result: Result<Option<Entry>, Error>)
        requires
            self.wf(),
        ensures
            match (result, following(self.history(), cursor.model())) {
                (Ok(Some(entry)), Ok(Some(model))) => entry.model() == model,
                (Ok(None), Ok(None)) => true,
                (Err(error), Err(fault)) => error == fault,
                _ => false,
            },
    {
        if self.closed {
            return Err(Error::Closed);
        }
        if !cursor.same_epoch(&self.head) {
            return Err(Error::Epoch);
        }
        if cursor.sequence > self.head.sequence {
            return Err(Error::Sequence);
        }
        if cursor.sequence == self.head.sequence {
            return Ok(None);
        }
        let sequence: u64 = cursor.sequence + 1;
        if self.entries.len() == 0 {
            return Err(Error::Lagged);
        }
        let oldest: u64 = self.entries[0].cursor.sequence;
        if sequence < oldest {
            return Err(Error::Lagged);
        }
        let index: usize = (sequence - oldest) as usize;
        assert(index < self.entries@.len());
        let entry = &self.entries[index];
        let ghost frames = frames_of(self.entries@);
        assert(frames[index as int] == buffer::bytes_content(entry.frame));
        Ok(Some(Entry { cursor: entry.cursor, frame: entry.frame.clone() }))
    }

    /// The position is the last one already handed out, not the next one wanted.
    pub fn subscribe(&self, cursor: Cursor) -> (result: Result<Subscriber, Error>)
        requires
            self.wf(),
        ensures
            match (result, following(self.history(), cursor.model())) {
                (Ok(subscriber), Ok(_)) => subscriber.position() == cursor.model(),
                (Err(error), Err(fault)) => error == fault,
                _ => false,
            },
    {
        match self.next(cursor) {
            Err(error) => Err(error),
            Ok(_) => Ok(Subscriber { cursor }),
        }
    }

    /// Ends the epoch, for those that were waiting for a new batch too.
    pub fn close(&mut self)
        requires
            old(self).wf(),
        ensures
            final(self).wf(),
            final(self).limits() == old(self).limits(),
            final(self).history() == (History {
                head: old(self).history().head,
                frames: Seq::empty(),
                closed: true,
            }),
    {
        self.closed = true;
        self.entries.clear();
        self.bytes = 0;
        assert(self.history().frames =~= Seq::empty());
    }
}

/// A reader of a history.
pub struct Subscriber {
    cursor: Cursor,
}

impl Subscriber {
    /// The last position that was handed out.
    pub closed spec fn position(&self) -> CursorModel {
        self.cursor.model()
    }

    /// The next batch, or nothing where there is none yet. The position only
    /// advances with a whole frame.
    pub fn next(&mut self, journal: &Journal) -> (result: Result<Option<Entry>, Error>)
        requires
            journal.wf(),
        ensures
            match (result, following(journal.history(), old(self).position())) {
                (Ok(Some(entry)), Ok(Some(model))) => entry.model() == model && final(self).position() == model.cursor,
                (Ok(None), Ok(None)) => final(self).position() == old(self).position(),
                (Err(error), Err(fault)) => error == fault && final(self).position() == old(self).position(),
                _ => false,
            },
    {
        match journal.next(self.cursor) {
            Err(error) => Err(error),
            Ok(None) => Ok(None),
            Ok(Some(entry)) => {
                self.cursor = entry.cursor;
                Ok(Some(entry))
            },
        }
    }
}

/// A reader at the head is handed what is published next.
pub proof fn law_published_frames_come_next(
    history: History,
    sequence: u64,
    frame: Seq<u8>,
    limits: Limits,
)
    requires
        publish_fault(history, sequence, frame, limits) is None,
    ensures
        following(history, history.head) == Ok::<Option<EntryModel>, Error>(None),
        following(published(history, frame, limits), history.head) == Ok::<
            Option<EntryModel>,
            Error,
        >(Some(EntryModel { cursor: published(history, frame, limits).head, frame })),
{
}

/// A publication never changes what a reader is handed: it gets the same frame
/// as before, or is told that the history no longer reaches back to it.
pub proof fn law_publication_keeps_or_drops_frames(
    history: History,
    sequence: u64,
    frame: Seq<u8>,
    limits: Limits,
    cursor: CursorModel,
    entry: EntryModel,
)
    requires
        publish_fault(history, sequence, frame, limits) is None,
        following(history, cursor) == Ok::<Option<EntryModel>, Error>(Some(entry)),
    ensures
        ({
            let after = following(published(history, frame, limits), cursor);
            after == Ok::<Option<EntryModel>, Error>(Some(entry)) || after == Err::<
                Option<EntryModel>,
                Error,
            >(Error::Lagged)
        }),
{
    lemma_retained(history.frames, frame.len(), limits);
}

/// The bytes and the number of the kept frames stay within the limits.
pub proof fn law_history_stays_within_its_limits(
    history: History,
    sequence: u64,
    frame: Seq<u8>,
    limits: Limits,
)
    requires
        limits.is_valid(),
        publish_fault(history, sequence, frame, limits) is None,
    ensures
        total(published(history, frame, limits).frames) <= limits.max_bytes,
        published(history, frame, limits).frames.len() <= limits.max_batches,
{
    let kept = retained(history.frames, frame.len(), limits);
    lemma_retained(history.frames, frame.len(), limits);
    lemma_total_push(kept, frame);
}

} // verus!
