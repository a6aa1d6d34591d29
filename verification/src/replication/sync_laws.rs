//! What replication is for: a follower comes to hold what its source holds, and gets there
//! by a snapshot or by the batches that it misses.

use super::cursor::CursorModel;
use super::error::Error;
use super::journal::{EntryModel, Error as JournalError, History, Limits};
use super::protocol::{HelloModel, MessageModel, Reject};
use super::session::{Beginning, NextModel, OpeningModel, Receiving};
use super::state::Status;
use crate::persistence::record;
use crate::persistence::recovery;
use crate::persistence::replay_laws;
use crate::persistence::role::ReplicationMetadata;
use crate::replication::journal;
use crate::replication::protocol;
use crate::replication::session;
use crate::replication::state;
use crate::server;
use crate::storage::changes;
use crate::storage::model::{Dataset, Moment};
use crate::storage::mutation;
use crate::storage::mutation::MutationModel;
use crate::storage::replica;
use crate::storage::routing;
use vstd::prelude::*;

verus! {

/// A follower applies a batch only if it is the next one, as it was sent, and stands behind it
/// afterwards. It never goes back and never leaves one out.
pub proof fn law_followers_apply_the_next_batch(
    position: CursorModel,
    previous: Option<Seq<u8>>,
    frame: Seq<u8>,
    message: MessageModel,
)
    ensures
        match session::followed(position, previous, frame, message) {
            Ok(NextModel::Apply { cursor, origin, mutations }) => {
                &&& cursor.epoch == position.epoch
                &&& cursor.sequence == position.sequence + 1
                &&& message == (MessageModel::Batch {
                    sequence: cursor.sequence,
                    origin,
                    mutations,
                })
            },
            Ok(NextModel::Again) => previous == Some(frame) && (
            message matches MessageModel::Batch { sequence, .. } && sequence == position.sequence),
            Ok(NextModel::Head(sequence)) => message matches MessageModel::Heartbeat(head)
                && head.epoch == position.epoch && head.sequence == sequence && sequence
                >= position.sequence,
            Err(error) => error == Error::Sequence,
        },
        message matches MessageModel::Batch { sequence, .. } && sequence == position.sequence + 1
            ==> session::followed(position, previous, frame, message) is Ok,
        message matches MessageModel::Heartbeat(head) ==> (head.epoch == position.epoch
            && head.sequence >= position.sequence ==> session::followed(
            position,
            previous,
            frame,
            message,
        ) is Ok),
{
}

/// A reader is handed the frame that follows its position: counted from the newest, the one as
/// far back as the reader is behind. At the head there is none yet. One that is further behind
/// than the history reaches has to begin anew, and so has one of another epoch.
pub proof fn law_readers_are_handed_what_they_miss(history: History, cursor: CursorModel)
    requires
        !history.closed,
        history.frames.len() <= history.head.sequence,
    ensures
        ({
            let behind = history.head.sequence - cursor.sequence;
            let next = journal::following(history, cursor);
            if cursor.epoch != history.head.epoch {
                next == Err::<Option<EntryModel>, JournalError>(JournalError::Epoch)
            } else if behind < 0 {
                next == Err::<Option<EntryModel>, JournalError>(JournalError::Sequence)
            } else if behind == 0 {
                next == Ok::<Option<EntryModel>, JournalError>(None)
            } else if behind > history.frames.len() {
                next == Err::<Option<EntryModel>, JournalError>(JournalError::Lagged)
            } else {
                next matches Ok(Some(entry)) && entry.cursor.epoch == cursor.epoch
                    && entry.cursor.sequence == cursor.sequence + 1 && entry.frame
                    == history.frames[history.frames.len() - behind]
            }
        }),
{
}

/// Publishing moves the head by one and puts the frame last. The history drops its oldest frames
/// only where it has to.
pub proof fn law_publishing_appends_to_the_history(
    history: History,
    sequence: u64,
    frame: Seq<u8>,
    limits: Limits,
)
    requires
        journal::publish_fault(history, sequence, frame, limits) is None,
    ensures
        ({
            let after = journal::published(history, frame, limits);
            &&& after.head.sequence == sequence && sequence == history.head.sequence + 1
            &&& after.head.epoch == history.head.epoch
            &&& after.frames.len() > 0 && after.frames.last() == frame
            &&& exists|dropped: int|
                0 <= dropped <= history.frames.len() && after.frames.drop_last()
                    == #[trigger] history.frames.skip(dropped)
            &&& journal::total(history.frames) + frame.len() <= limits.max_bytes
                && history.frames.len() < limits.max_batches ==> after.frames
                == history.frames.push(frame)
            &&& after.closed == history.closed
        }),
{
    let kept = journal::retained(history.frames, frame.len(), limits);
    journal::lemma_retained(history.frames, frame.len(), limits);
    let after = journal::published(history, frame, limits);
    assert(after.frames.drop_last() =~= kept);
    assert(history.frames.skip(history.frames.len() - kept.len()) == kept);
}

/// A batch is refused for the history exactly if it is empty or too long, the history is closed,
/// or it is not the next one.
pub proof fn law_only_the_next_batch_is_published(
    history: History,
    sequence: u64,
    frame: Seq<u8>,
    limits: Limits,
)
    ensures
        journal::publish_fault(history, sequence, frame, limits) is None <==> 0 < frame.len()
            <= limits.max_frame_bytes && !history.closed && sequence == history.head.sequence + 1,
{
}

/// A server that follows another hands out no data: it tells its state and can be promoted, by a
/// local peer only. A primary lets follow whoever has its version and layout and room for what
/// it announces.
pub proof fn law_replicas_serve_no_data(
    request: MessageModel,
    local: bool,
    readonly: bool,
    source: HelloModel,
)
    ensures
        ({
            let opening = session::opened(request, local, readonly, source);
            &&& readonly ==> !(opening is Export) && !(opening is Follow)
            &&& opening is Promote ==> local && readonly && request is Promote
            &&& opening is Status <==> request is StatusRequest
            &&& request is Promote && !local ==> opening == OpeningModel::Reject(
                Reject::Unavailable,
            )
            &&& request is Promote && local ==> (if readonly {
                opening is Promote
            } else {
                opening is Position
            })
            &&& opening matches OpeningModel::Follow(cursor) ==> (
            request matches MessageModel::Hello(peer) && cursor == peer.cursor
                && peer.sider_version == source.sider_version && peer.record_version
                == source.record_version && peer.shard_count == source.shard_count
                && peer.routing_version == source.routing_version && peer.max_record_bytes
                >= source.max_record_bytes && peer.max_mutations >= source.max_mutations
                && peer.max_snapshot_bytes >= source.max_snapshot_bytes)
            &&& (request matches MessageModel::Hello(peer) && !readonly && protocol::refusal(
                peer,
                source,
            ) is None) ==> opening is Follow
            &&& opening is Export ==> request is Export
        }),
{
}

/// Two servers fit if they agree on versions and layout and the receiver has at least the
/// capacities of the source. What does not fit is told apart.
pub proof fn law_refusals_tell_what_does_not_fit(receiver: HelloModel, source: HelloModel)
    ensures
        ({
            let versions = receiver.sider_version == source.sider_version && receiver.record_version
                == source.record_version;
            let layouts = receiver.shard_count == source.shard_count && receiver.routing_version
                == source.routing_version;
            let room = receiver.max_record_bytes >= source.max_record_bytes
                && receiver.max_mutations >= source.max_mutations && receiver.max_snapshot_bytes
                >= source.max_snapshot_bytes;
            let refusal = protocol::refusal(receiver, source);
            &&& refusal is None <==> versions && layouts && room
            &&& refusal == Some(Reject::IncompatibleVersion) <==> !versions
            &&& refusal == Some(Reject::IncompatibleLayout) <==> versions && !layouts
            &&& refusal == Some(Reject::ResourceLimit) <==> versions && layouts && !room
        }),
        protocol::refusal(source, source) is None,
{
}

/// A follower goes on from its own position only in the epoch of its source and not ahead of it;
/// otherwise it takes a snapshot of the position that the source tells.
pub proof fn law_followers_begin_where_they_are(
    own: HelloModel,
    position: CursorModel,
    source: MessageModel,
    answer: MessageModel,
    result: Result<Beginning, Error>,
)
    requires
        session::begins(own, position, source, answer, result),
    ensures
        result matches Ok(Beginning::Continue { head }) ==> (
        source matches MessageModel::Hello(hello) && protocol::refusal(own, hello) is None && (
        hello.cursor matches Some(newest) && newest.sequence == head && newest.epoch
            == position.epoch && position.sequence <= head) && answer == MessageModel::Continue(
            position,
        )),
        result matches Ok(Beginning::Full { cursor, entries }) ==> (
        source matches MessageModel::Hello(hello) && protocol::refusal(own, hello) is None
            && hello.cursor == Some(cursor.model()) && answer == (MessageModel::FullStart {
            cursor: cursor.model(),
            entries,
        })),
        (source matches MessageModel::Hello(hello) && protocol::refusal(own, hello) is None && (
        hello.cursor matches Some(newest) && newest.epoch == position.epoch && newest.sequence
            >= position.sequence) && answer == MessageModel::Continue(position)) ==> result is Ok,
{
}

/// A snapshot is whole only if its end tells the position, the number of entries and the digest of
/// what arrived. Each entry has a greater key than the one before, and no entry is left out or
/// added.
pub proof fn law_only_whole_snapshots_are_taken(
    state: Receiving,
    frame: Seq<u8>,
    message: MessageModel,
    most: usize,
)
    ensures
        match session::received(state, frame, message, most) {
            Ok((after, true)) => {
                &&& after == state
                &&& message == (MessageModel::FullEnd {
                    cursor: state.cursor,
                    entries: state.entries,
                    digest: state.digest,
                })
                &&& state.mutations.len() == state.entries
            },
            Ok((after, false)) => {
                &&& message matches MessageModel::SnapshotEntry(entry) && after.mutations
                    == state.mutations.push(entry) && (state.mutations.len() > 0
                    ==> crate::ordered::precedes(state.mutations.last().key(), entry.key()))
                &&& after.bytes == state.bytes + frame.len() && after.bytes <= most
                &&& after.mutations.len() <= state.entries
                &&& after.cursor == state.cursor && after.entries == state.entries
            },
            Err(_) => true,
        },
        message == (MessageModel::FullEnd {
            cursor: state.cursor,
            entries: state.entries,
            digest: state.digest,
        }) && state.mutations.len() == state.entries ==> session::received(
            state,
            frame,
            message,
            most,
        ) is Ok,
{
}

/// A snapshot that a replica takes is spread over the shards: each entry has its effect in the
/// shard of its key, and nothing else changes in any shard.
pub proof fn law_snapshots_fill_the_shards(
    shards: Seq<Dataset>,
    previous: Option<Seq<u8>>,
    mutations: Seq<MutationModel>,
    moment: Moment,
    index: int,
    shard: int,
    key: Seq<u8>,
)
    requires
        shards.len() > 0,
        replica::filled(shards, previous, mutations, moment) is Ok,
    ensures
        ({
            let after = replica::filled(shards, previous, mutations, moment)->Ok_0;
            &&& after.len() == shards.len()
            &&& 0 <= index < mutations.len() ==> changes::entry_at(
                after[routing::shard_of(mutations[index].key(), shards.len() as int)],
                mutations[index].key(),
            ) == replay_laws::effect(mutations[index], moment)
            &&& 0 <= shard < shards.len() && (!replay_laws::about(mutations, key)
                || routing::shard_of(key, shards.len() as int) != shard) ==> changes::entry_at(
                after[shard],
                key,
            ) == changes::entry_at(shards[shard], key)
            &&& 0 <= index < mutations.len() ==> mutations[index] is Put && record::follows(
                previous,
                mutations[index].key(),
            )
            &&& forall|i: int, j: int|
                0 <= i < j < mutations.len() ==> crate::ordered::precedes(
                    (#[trigger] mutations[i]).key(),
                    (#[trigger] mutations[j]).key(),
                )
        }),
    decreases mutations.len(),
{
    if mutations.len() > 0 {
        let count = shards.len() as int;
        let next = mutations[0];
        let home = routing::shard_of(next.key(), count);
        let rest = mutations.skip(1);
        let one = seq![next];
        let list = mutation::replay_outcome(shards[home], one, moment)->Ok_0;
        let changed = shards.update(home, changes::applied(shards[home], list));
        let after = replica::filled(shards, previous, mutations, moment)->Ok_0;
        assert(0 <= home < count);
        replay_laws::law_replayed_mutations_take_effect(shards[home], one, moment, 0, key);
        assert(one[0] == next);
        law_snapshots_fill_the_shards(
            changed,
            Some(next.key()),
            rest,
            moment,
            index - 1,
            shard,
            key,
        );
        assert forall|i: int, j: int| 0 <= i < j < mutations.len() implies crate::ordered::precedes(
            (#[trigger] mutations[i]).key(),
            (#[trigger] mutations[j]).key(),
        ) by {
            assert(rest[j - 1] == mutations[j]);
            if i == 0 {
                law_snapshots_fill_the_shards(
                    changed,
                    Some(next.key()),
                    rest,
                    moment,
                    j - 1,
                    shard,
                    key,
                );
            } else {
                assert(rest[i - 1] == mutations[i]);
            }
        }
        if 0 < index < mutations.len() {
            assert(rest[index - 1] == mutations[index]);
            lemma_follows_on(previous, next.key(), mutations[index].key());
        }
        if index == 0 {
            // No later entry has this key.
            if replay_laws::about(rest, next.key()) {
                let i = choose|i: int|
                    0 <= i < rest.len() && (#[trigger] rest[i]).key() == next.key();
                law_snapshots_fill_the_shards(
                    changed,
                    Some(next.key()),
                    rest,
                    moment,
                    i,
                    shard,
                    key,
                );
                crate::ordered::lemma_precedes_irreflexive(next.key());
            }
            law_snapshots_fill_the_shards(
                changed,
                Some(next.key()),
                rest,
                moment,
                -1,
                home,
                next.key(),
            );
        }
        if !replay_laws::about(mutations, key) || routing::shard_of(key, count) != shard {
            if replay_laws::about(one, key) {
                let i = choose|i: int| 0 <= i < one.len() && (#[trigger] one[i]).key() == key;
                assert(mutations[0].key() == key);
            }
            if replay_laws::about(rest, key) {
                let i = choose|i: int| 0 <= i < rest.len() && (#[trigger] rest[i]).key() == key;
                assert(mutations[i + 1].key() == key);
            }
        }
    }
}

proof fn lemma_follows_on(previous: Option<Seq<u8>>, middle: Seq<u8>, last: Seq<u8>)
    requires
        record::follows(previous, middle),
        record::follows(Some(middle), last),
    ensures
        record::follows(previous, last),
{
    if let Some(before) = previous {
        crate::ordered::lemma_precedes_transitive(before, middle, last);
    }
}

/// A replica applies a received batch only from its current session, only if it is the next one
/// of the same epoch, and only if it holds something that lies on one shard.
pub proof fn law_replicas_apply_the_next_batch(
    status: Status,
    applied: CursorModel,
    generation: u64,
    cursor: CursorModel,
    mutations: Seq<MutationModel>,
    count: int,
)
    ensures
        replica::batch_fault(status, applied, generation, cursor, mutations, count) is None <==> {
            &&& status.role is Replica && status.generation == generation
            &&& cursor.epoch == applied.epoch && cursor.sequence == applied.sequence + 1
            &&& mutations.len() > 0
            &&& forall|i: int, j: int|
                0 <= i < mutations.len() && 0 <= j < mutations.len() ==> routing::shard_of(
                    (#[trigger] mutations[i]).key(),
                    count,
                ) == routing::shard_of((#[trigger] mutations[j]).key(), count)
        },
        !(status.role is Replica && status.generation == generation) ==> replica::batch_fault(
            status,
            applied,
            generation,
            cursor,
            mutations,
            count,
        ) == Some(Error::Stale),
{
    if mutations.len() > 0 {
        if recovery::one_shard(mutations, count) {
            assert forall|i: int, j: int|
                0 <= i < mutations.len() && 0 <= j < mutations.len() implies routing::shard_of(
                (#[trigger] mutations[i]).key(),
                count,
            ) == routing::shard_of((#[trigger] mutations[j]).key(), count) by {}
        } else {
            let i = choose|i: int|
                0 <= i < mutations.len() && routing::shard_of(
                    (#[trigger] mutations[i]).key(),
                    count,
                ) != routing::shard_of(mutations[0].key(), count);
            assert(mutations[0].key() == mutations[0].key());
        }
    }
}

/// Each synchronisation of the current session is counted once, by its kind, and tells how far
/// the source is.
pub proof fn law_synchronisations_are_counted(
    status: Status,
    generation: u64,
    upstream_sequence: u64,
    full: bool,
)
    requires
        state::current(status, generation),
        status.full_syncs < u64::MAX,
        status.partial_syncs < u64::MAX,
    ensures
        ({
            let after = state::connection(status, generation, upstream_sequence, full);
            &&& after.connected && after.upstream_sequence == Some(upstream_sequence)
            &&& after.full_syncs + after.partial_syncs == status.full_syncs + status.partial_syncs
                + 1
            &&& full ==> after.full_syncs == status.full_syncs + 1
            &&& !full ==> after.partial_syncs == status.partial_syncs + 1
            &&& after.role == status.role && after.generation == status.generation && after.applied
                == status.applied
        }),
{
}

/// A server without an upstream is a primary; one with an upstream follows it unless its log says
/// that it was promoted.
pub proof fn law_roles_survive_a_restart(metadata: Option<ReplicationMetadata>, upstream: bool)
    ensures
        !upstream ==> server::role_of(metadata, upstream) is Primary,
        (metadata matches Some(known) && known.role is Primary) ==> server::role_of(
            metadata,
            upstream,
        ) is Primary,
        upstream && (metadata matches Some(known) ==> known.role is Replica) ==> server::role_of(
            metadata,
            upstream,
        ) is Replica,
{
}

} // verus!
