//! What the operational diagnosis tells.

use crate::metrics;
use crate::metrics::{Amount, Counter, MetricsModel};
use crate::numbers;
use crate::replication::state::Status;
use crate::resp::frame::FrameModel;
use vstd::prelude::*;
use vstd::string::*;

verus! {

/// A line with a name and a number.
pub open spec fn line(name: &'static str, value: nat) -> Seq<u8> {
    words(name, numbers::decimal(value))
}

/// A line with a name and a word.
pub open spec fn words(name: &'static str, value: Seq<u8>) -> Seq<u8> {
    name.spec_bytes() + ":".spec_bytes() + value + "\r\n".spec_bytes()
}

/// Whether a line stands in a text.
pub open spec fn shows(text: Seq<u8>, line: Seq<u8>) -> bool {
    exists|before: Seq<u8>, after: Seq<u8>| text == #[trigger] (before + line + after)
}

/// Whether all of the lines stand in a text.
pub open spec fn shows_all(text: Seq<u8>, lines: Seq<Seq<u8>>) -> bool {
    forall|i: int| 0 <= i < lines.len() ==> shows(text, #[trigger] lines[i])
}

/// All of the lines stand in the text.
#[verifier::opaque]
spec fn seen(text: Seq<u8>, lines: Seq<Seq<u8>>) -> bool {
    shows_all(text, lines)
}

proof fn lemma_start(text: Seq<u8>)
    ensures
        seen(text, Seq::empty()),
{
    reveal(seen);
}

proof fn lemma_seen(text: Seq<u8>, lines: Seq<Seq<u8>>)
    requires
        seen(text, lines),
    ensures
        shows_all(text, lines),
{
    reveal(seen);
}

proof fn lemma_step(text: Seq<u8>, lines: Seq<Seq<u8>>, line: Seq<u8>)
    requires
        seen(text, lines),
    ensures
        seen(text + line, lines.push(line)),
{
    reveal(seen);
    let longer = text + line;
    let more = lines.push(line);
    assert forall|i: int| 0 <= i < more.len() implies shows(longer, #[trigger] more[i]) by {
        if i < lines.len() {
            assert(more[i] == lines[i]);
            let (before, after) = choose|before: Seq<u8>, after: Seq<u8>|
                text == #[trigger] (before + lines[i] + after);
            assert(longer =~= before + lines[i] + (after + line));
        } else {
            assert(longer =~= text + line + Seq::<u8>::empty());
        }
    }
}

/// The section on the server tells its version, age and port.
pub proof fn law_server_lines(m: MetricsModel, version: Seq<u8>, uptime: u64)
    ensures
        shows_all(
            metrics::server_text(m, version, uptime),
            seq![
                words("sider_version", version),
                line("metrics_schema_version", 1),
                line("uptime_seconds", uptime as nat),
                line("tcp_port", m.bound_port as nat),
            ],
        ),
{
    let start = "# Server\r\n".spec_bytes();
    let none = Seq::<Seq<u8>>::empty();
    lemma_start(start);
    let line0 = words("sider_version", version);
    lemma_step(start, none, line0);
    let text0 = start + line0;
    let lines0 = none.push(line0);
    let line1 = line("metrics_schema_version", 1);
    lemma_step(text0, lines0, line1);
    let text1 = text0 + line1;
    let lines1 = lines0.push(line1);
    let line2 = line("uptime_seconds", uptime as nat);
    lemma_step(text1, lines1, line2);
    let text2 = text1 + line2;
    let lines2 = lines1.push(line2);
    let line3 = line("tcp_port", m.bound_port as nat);
    lemma_step(text2, lines2, line3);
    let text3 = text2 + line3;
    let lines3 = lines2.push(line3);
    assert(metrics::server_text(m, version, uptime) == text3);
    assert(lines3 =~= seq![line0, line1, line2, line3]);
    lemma_seen(text3, lines3);
}

/// The section on clients tells connections and subscriptions.
pub proof fn law_clients_lines(m: MetricsModel)
    ensures
        shows_all(
            metrics::clients_text(m),
            seq![
                line("connected_clients", m.connections as nat),
                line("total_connections_received", m.counters[metrics::slot(Counter::Connections)] as nat),
                line("rejected_connections", m.counters[metrics::slot(Counter::RejectedConnections)] as nat),
                line("pubsub_channels", m.pubsub_channels as nat),
                line("pubsub_subscribers", m.pubsub_subscribers as nat),
                line("pubsub_subscriptions", m.pubsub_subscriptions as nat),
            ],
        ),
{
    let start = "# Clients\r\n".spec_bytes();
    let none = Seq::<Seq<u8>>::empty();
    lemma_start(start);
    let line0 = line("connected_clients", m.connections as nat);
    lemma_step(start, none, line0);
    let text0 = start + line0;
    let lines0 = none.push(line0);
    let line1 = line("total_connections_received", m.counters[metrics::slot(Counter::Connections)] as nat);
    lemma_step(text0, lines0, line1);
    let text1 = text0 + line1;
    let lines1 = lines0.push(line1);
    let line2 = line("rejected_connections", m.counters[metrics::slot(Counter::RejectedConnections)] as nat);
    lemma_step(text1, lines1, line2);
    let text2 = text1 + line2;
    let lines2 = lines1.push(line2);
    let line3 = line("pubsub_channels", m.pubsub_channels as nat);
    lemma_step(text2, lines2, line3);
    let text3 = text2 + line3;
    let lines3 = lines2.push(line3);
    let line4 = line("pubsub_subscribers", m.pubsub_subscribers as nat);
    lemma_step(text3, lines3, line4);
    let text4 = text3 + line4;
    let lines4 = lines3.push(line4);
    let line5 = line("pubsub_subscriptions", m.pubsub_subscriptions as nat);
    lemma_step(text4, lines4, line5);
    let text5 = text4 + line5;
    let lines5 = lines4.push(line5);
    assert(metrics::clients_text(m) == text5);
    assert(lines5 =~= seq![line0, line1, line2, line3, line4, line5]);
    lemma_seen(text5, lines5);
}

/// The section on statistics tells each counter, and how full the queues are.
pub proof fn law_stats_lines(m: MetricsModel)
    ensures
        shows_all(
            metrics::stats_text(m),
            seq![
                line("commands_received_total", m.counters[metrics::slot(Counter::Requests)] as nat),
                line("command_error_replies_total", m.counters[metrics::slot(Counter::ErrorReplies)] as nat),
                line("protocol_errors_total", m.counters[metrics::slot(Counter::ProtocolErrors)] as nat),
                line("connection_failures_total", m.counters[metrics::slot(Counter::ConnectionFailures)] as nat),
                line("worker_requests_accepted_total", m.counters[metrics::slot(Counter::WorkerAccepted)] as nat),
                line("client_write_timeouts_total", m.counters[metrics::slot(Counter::WriteTimeouts)] as nat),
                line("response_encoding_failures_total", m.counters[metrics::slot(Counter::ResponseLimitFailures)] as nat),
                line("worker_timeouts_total", m.counters[metrics::slot(Counter::WorkerTimeouts)] as nat),
                line("worker_failures_total", m.counters[metrics::slot(Counter::WorkerFailures)] as nat),
                line("pubsub_evictions_total", m.counters[metrics::slot(Counter::PubSubEvictions)] as nat),
                line("pubsub_deliveries_total", m.counters[metrics::slot(Counter::PubSubDeliveries)] as nat),
                line("worker_queue_used", metrics::queue_sum(m.queues, false) as nat),
                line("worker_queue_capacity", metrics::queue_sum(m.queues, true) as nat),
            ],
        ),
{
    let start = "# Stats\r\n".spec_bytes();
    let none = Seq::<Seq<u8>>::empty();
    lemma_start(start);
    let line0 = line("commands_received_total", m.counters[metrics::slot(Counter::Requests)] as nat);
    lemma_step(start, none, line0);
    let text0 = start + line0;
    let lines0 = none.push(line0);
    let line1 = line("command_error_replies_total", m.counters[metrics::slot(Counter::ErrorReplies)] as nat);
    lemma_step(text0, lines0, line1);
    let text1 = text0 + line1;
    let lines1 = lines0.push(line1);
    let line2 = line("protocol_errors_total", m.counters[metrics::slot(Counter::ProtocolErrors)] as nat);
    lemma_step(text1, lines1, line2);
    let text2 = text1 + line2;
    let lines2 = lines1.push(line2);
    let line3 = line("connection_failures_total", m.counters[metrics::slot(Counter::ConnectionFailures)] as nat);
    lemma_step(text2, lines2, line3);
    let text3 = text2 + line3;
    let lines3 = lines2.push(line3);
    let line4 = line("worker_requests_accepted_total", m.counters[metrics::slot(Counter::WorkerAccepted)] as nat);
    lemma_step(text3, lines3, line4);
    let text4 = text3 + line4;
    let lines4 = lines3.push(line4);
    let line5 = line("client_write_timeouts_total", m.counters[metrics::slot(Counter::WriteTimeouts)] as nat);
    lemma_step(text4, lines4, line5);
    let text5 = text4 + line5;
    let lines5 = lines4.push(line5);
    let line6 = line("response_encoding_failures_total", m.counters[metrics::slot(Counter::ResponseLimitFailures)] as nat);
    lemma_step(text5, lines5, line6);
    let text6 = text5 + line6;
    let lines6 = lines5.push(line6);
    let line7 = line("worker_timeouts_total", m.counters[metrics::slot(Counter::WorkerTimeouts)] as nat);
    lemma_step(text6, lines6, line7);
    let text7 = text6 + line7;
    let lines7 = lines6.push(line7);
    let line8 = line("worker_failures_total", m.counters[metrics::slot(Counter::WorkerFailures)] as nat);
    lemma_step(text7, lines7, line8);
    let text8 = text7 + line8;
    let lines8 = lines7.push(line8);
    let line9 = line("pubsub_evictions_total", m.counters[metrics::slot(Counter::PubSubEvictions)] as nat);
    lemma_step(text8, lines8, line9);
    let text9 = text8 + line9;
    let lines9 = lines8.push(line9);
    let line10 = line("pubsub_deliveries_total", m.counters[metrics::slot(Counter::PubSubDeliveries)] as nat);
    lemma_step(text9, lines9, line10);
    let text10 = text9 + line10;
    let lines10 = lines9.push(line10);
    let line11 = line("worker_queue_used", metrics::queue_sum(m.queues, false) as nat);
    lemma_step(text10, lines10, line11);
    let text11 = text10 + line11;
    let lines11 = lines10.push(line11);
    let line12 = line("worker_queue_capacity", metrics::queue_sum(m.queues, true) as nat);
    lemma_step(text11, lines11, line12);
    let text12 = text11 + line12;
    let lines12 = lines11.push(line12);
    assert(metrics::stats_text(m) == text12);
    assert(lines12 =~= seq![line0, line1, line2, line3, line4, line5, line6, line7, line8, line9, line10, line11, line12]);
    lemma_seen(text12, lines12);
}

/// The section on memory tells what the shards hold together.
pub proof fn law_memory_lines(m: MetricsModel)
    ensures
        shows_all(
            metrics::memory_text(m),
            seq![
                line("dataset_keys", metrics::dataset_sum(m.datasets, Amount::Keys) as nat),
                line("dataset_expiring_keys", metrics::dataset_sum(m.datasets, Amount::Expiring) as nat),
                line("dataset_logical_bytes", metrics::dataset_sum(m.datasets, Amount::Used) as nat),
                line("dataset_quota_bytes", metrics::dataset_sum(m.datasets, Amount::Quota) as nat),
                line("expiration_batches_total", m.counters[metrics::slot(Counter::ExpirationBatches)] as nat),
                line("expiration_batch_keys_removed_total", m.counters[metrics::slot(Counter::ExpirationKeys)] as nat),
            ],
        ),
{
    let start = "# Memory\r\n".spec_bytes();
    let none = Seq::<Seq<u8>>::empty();
    lemma_start(start);
    let line0 = line("dataset_keys", metrics::dataset_sum(m.datasets, Amount::Keys) as nat);
    lemma_step(start, none, line0);
    let text0 = start + line0;
    let lines0 = none.push(line0);
    let line1 = line("dataset_expiring_keys", metrics::dataset_sum(m.datasets, Amount::Expiring) as nat);
    lemma_step(text0, lines0, line1);
    let text1 = text0 + line1;
    let lines1 = lines0.push(line1);
    let line2 = line("dataset_logical_bytes", metrics::dataset_sum(m.datasets, Amount::Used) as nat);
    lemma_step(text1, lines1, line2);
    let text2 = text1 + line2;
    let lines2 = lines1.push(line2);
    let line3 = line("dataset_quota_bytes", metrics::dataset_sum(m.datasets, Amount::Quota) as nat);
    lemma_step(text2, lines2, line3);
    let text3 = text2 + line3;
    let lines3 = lines2.push(line3);
    let line4 = line("expiration_batches_total", m.counters[metrics::slot(Counter::ExpirationBatches)] as nat);
    lemma_step(text3, lines3, line4);
    let text4 = text3 + line4;
    let lines4 = lines3.push(line4);
    let line5 = line("expiration_batch_keys_removed_total", m.counters[metrics::slot(Counter::ExpirationKeys)] as nat);
    lemma_step(text4, lines4, line5);
    let text5 = text4 + line5;
    let lines5 = lines4.push(line5);
    assert(metrics::memory_text(m) == text5);
    assert(lines5 =~= seq![line0, line1, line2, line3, line4, line5]);
    lemma_seen(text5, lines5);
}

/// An event counts in its own counter and in no other, up to the greatest number.
pub proof fn law_events_count_once(
    counters: Seq<u64>,
    counter: Counter,
    count: u64,
    other: Counter,
)
    requires
        counters.len() == metrics::COUNTERS,
    ensures
        ({
            let after = metrics::counted(counters, counter, count);
            &&& after.len() == counters.len()
            &&& after[metrics::slot(counter)] == if counters[metrics::slot(counter)] + count
                > u64::MAX {
                u64::MAX as int
            } else {
                counters[metrics::slot(counter)] + count
            }
            &&& other != counter ==> after[metrics::slot(other)] == counters[metrics::slot(other)]
            &&& 0 <= metrics::slot(counter) < metrics::COUNTERS
        }),
{
}

/// A reply counts one error for each error in it, at any depth.
pub proof fn law_errors_are_counted(frame: FrameModel, values: Seq<FrameModel>, last: FrameModel)
    ensures
        metrics::error_count(FrameModel::Array(Some(values.push(last)))) == metrics::error_count(
            FrameModel::Array(Some(values)),
        ) + metrics::error_count(last),
        metrics::error_count(FrameModel::Array(Some(Seq::empty()))) == 0,
        frame is Error ==> metrics::error_count(frame) == 1,
        frame is Simple || frame is Integer || frame is Bulk ==> metrics::error_count(frame) == 0,
        metrics::error_count(FrameModel::Array(None)) == 0,
{
    let more = values.push(last);
    lemma_errors(values, more, values.len());
    assert(metrics::error_count(FrameModel::Array(Some(more))) == metrics::errors_in(
        more,
        more.len(),
    ));
    assert(metrics::error_count(FrameModel::Array(Some(values))) == metrics::errors_in(
        values,
        values.len(),
    ));
}

proof fn lemma_errors(left: Seq<FrameModel>, right: Seq<FrameModel>, count: nat)
    requires
        count <= left.len(),
        count <= right.len(),
        forall|i: int| 0 <= i < count ==> left[i] == #[trigger] right[i],
    ensures
        metrics::errors_in(left, count) == metrics::errors_in(right, count),
    decreases count,
{
    if count > 0 {
        lemma_errors(left, right, (count - 1) as nat);
        assert(left[count - 1] == right[count - 1]);
    }
}

/// A replica is behind by as many batches as its source is ahead, where both are known and the
/// source is not behind.
pub proof fn law_lag_is_the_distance_to_the_source(status: Status)
    ensures
        match metrics::lag(status) {
            Some(lag) => status.upstream_sequence matches Some(upstream) && status.applied.sequence
                + lag == upstream && status.applied.model().epoch
                != crate::replication::cursor::no_epoch(),
            None => status.upstream_sequence is None || status.applied.model().epoch
                == crate::replication::cursor::no_epoch() || status.upstream_sequence->Some_0
                < status.applied.sequence,
        },
{
}

/// A sum over shards is that of the amounts, up to the greatest number.
pub proof fn law_sums_add_up(sizes: Seq<usize>, more: usize)
    ensures
        metrics::summed(sizes.push(more)) == if metrics::summed(sizes) + more > u64::MAX {
            u64::MAX as int
        } else {
            metrics::summed(sizes) + more
        },
        metrics::summed(Seq::empty()) == 0,
{
    assert(sizes.push(more).drop_last() =~= sizes);
}

} // verus!
