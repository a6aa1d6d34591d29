//! What holds of the encoder and the decoder together.

use super::decoder::{Outcome, Phase, Scan, Step};
use super::frame::{FrameModel, NodeModel};
use super::limits::RespLimits;
use crate::numbers;
use crate::resp::decoder;
use crate::resp::encoder;
use crate::resp::frame;
use crate::resp::limits;
use vstd::prelude::*;

verus! {

/// How the bytes are split over calls makes no difference: once a beginning of
/// the input is a frame, or none that can become one, so is the whole input.
pub proof fn law_decoding_is_incremental(limits: RespLimits, prefix: Seq<u8>, suffix: Seq<u8>)
    ensures
        match decoder::decoded(limits, prefix) {
            Outcome::Incomplete(scan) => decoder::decoded(limits, prefix + suffix) == decoder::run(
                limits,
                scan,
                suffix,
            ),
            known => decoder::decoded(limits, prefix + suffix) == known,
        },
{
    decoder::lemma_run_extend(limits, decoder::start(), prefix, suffix);
}

/// What an encoder may write, a decoder with the same limits reads back: the
/// same frame, no byte of what follows.
pub proof fn law_round_trip(frame: FrameModel, limits: RespLimits, suffix: Seq<u8>)
    requires
        limits::limits_fault(limits) is None,
        encoder::frame_fault(frame, limits) is None,
    ensures
        decoder::decoded(limits, frame::encoding(frame) + suffix) == (Outcome::Complete {
            nodes: frame::preorder(frame),
            consumed: frame::encoding(frame).len(),
        }),
        decoder::assemble(frame::preorder(frame)) == frame,
{
    let nodes = frame::preorder(frame);
    let depths = frame::levels(frame, 0);
    frame::lemma_levels_len(frame, 0);
    lemma_frame_shape(Seq::empty(), frame);
    assert(Seq::<NodeModel>::empty() + nodes =~= nodes);
    assert(decoder::whole(nodes)) by {
        assert forall|k: int| 0 <= k < nodes.len() implies decoder::room(#[trigger] nodes.take(k)) >= 1 by {
            assert(Seq::<NodeModel>::empty() + nodes.take(k) =~= nodes.take(k));
        }
    }
    assert forall|k: int| 0 <= k < nodes.len() implies (#[trigger] opens(nodes.take(k))).len()
        == depths[k] by {
        assert(Seq::<NodeModel>::empty() + nodes.take(k) =~= nodes.take(k));
    }
    assert forall|k: int| 0 <= k < nodes.len() implies #[trigger] encoder::fault_at(
        nodes,
        depths,
        k,
        limits,
    ) is None by {
        lemma_no_fault(nodes, depths, 0, k, limits);
    }
    assert(nodes.take(0) =~= Seq::<NodeModel>::empty());
    assert(nodes.skip(0) =~= nodes);
    assert(reached(nodes, 0) == decoder::start());
    lemma_simulation(nodes, depths, 0, limits, suffix);
    lemma_forest_of_frame(nodes, 0, frame);
    assert(nodes.subrange(0, nodes.len() as int) =~= nodes);
}

/// No proper beginning of a written frame is taken for a frame or refused.
pub proof fn law_proper_prefix_is_incomplete(frame: FrameModel, limits: RespLimits, count: int)
    requires
        limits::limits_fault(limits) is None,
        encoder::frame_fault(frame, limits) is None,
        0 <= count < frame::encoding(frame).len(),
    ensures
        decoder::decoded(limits, frame::encoding(frame).take(count)) is Incomplete,
{
    let whole_text = frame::encoding(frame);
    law_round_trip(frame, limits, Seq::empty());
    assert(whole_text + Seq::<u8>::empty() =~= whole_text);
    let prefix = whole_text.take(count);
    assert(prefix + whole_text.skip(count) =~= whole_text);
    law_decoding_is_incremental(limits, prefix, whole_text.skip(count));
    lemma_consumed_bound(limits, decoder::start(), prefix);
}

proof fn lemma_consumed_bound(limits: RespLimits, scan: Scan, input: Seq<u8>)
    ensures
        decoder::run(limits, scan, input) matches Outcome::Complete { consumed, .. } ==> consumed
            <= scan.consumed + input.len(),
    decreases input.len(),
{
    if decoder::doomed(limits, scan) is None && input.len() > 0 {
        if let Step::More(next) = decoder::step(limits, scan, input[0]) {
            lemma_consumed_bound(limits, next, input.skip(1));
        }
    }
}

proof fn lemma_no_fault(
    nodes: Seq<NodeModel>,
    depths: Seq<nat>,
    from: int,
    index: int,
    limits: RespLimits,
)
    requires
        0 <= from <= index < nodes.len(),
        encoder::fault_from(nodes, depths, from, limits) is None,
    ensures
        encoder::fault_at(nodes, depths, index, limits) is None,
    decreases index - from,
{
    if from < index {
        lemma_no_fault(nodes, depths, from + 1, index, limits);
    }
}

/// The arrays that a run of nodes leaves open.
spec fn opens(nodes: Seq<NodeModel>) -> Seq<nat>
    decreases nodes.len(),
{
    if nodes.len() == 0 {
        Seq::empty()
    } else {
        let before = opens(nodes.drop_last());
        match nodes.last() {
            NodeModel::Array(Some(count)) => if count > 0 {
                before.push(count)
            } else {
                decoder::close(before)
            },
            _ => decoder::close(before),
        }
    }
}

proof fn lemma_push(nodes: Seq<NodeModel>, node: NodeModel)
    ensures
        opens(nodes + seq![node]) == (match node {
            NodeModel::Array(Some(count)) => if count > 0 {
                opens(nodes).push(count)
            } else {
                decoder::close(opens(nodes))
            },
            _ => decoder::close(opens(nodes)),
        }),
        decoder::room(nodes + seq![node]) == decoder::room(nodes) - 1 + match node {
            NodeModel::Array(Some(count)) => count as int,
            _ => 0,
        },
{
    assert((nodes + seq![node]).drop_last() =~= nodes);
}

/// What the lines of a frame do to the arrays left open by the lines before.
proof fn lemma_frame_shape(before: Seq<NodeModel>, frame: FrameModel)
    ensures
        opens(before + frame::preorder(frame)) == decoder::close(opens(before)),
        decoder::room(before + frame::preorder(frame)) == decoder::room(before) - 1,
        forall|k: int|
            0 <= k < frame::preorder(frame).len() ==> opens(
                before + #[trigger] frame::preorder(frame).take(k),
            ).len() == frame::levels(frame, opens(before).len())[k] && decoder::room(
                before + frame::preorder(frame).take(k),
            ) >= decoder::room(before),
    decreases frame,
{
    let lines = frame::preorder(frame);
    let depth = opens(before).len();
    frame::lemma_levels_len(frame, depth);
    assert(before + lines.take(0) =~= before);
    match frame {
        FrameModel::Array(Some(values)) => {
            let head = before + seq![frame::root(frame)];
            let inner = frame::preorders(values);
            lemma_push(before, frame::root(frame));
            assert(before + lines =~= head + inner);
            frame::lemma_levels_of_len(values, depth + 1);
            if values.len() > 0 {
                lemma_run_shape(head, values, opens(before), values.len());
            } else {
                assert(head + inner =~= head);
            }
            assert forall|k: int| 0 <= k < lines.len() implies opens(
                before + #[trigger] lines.take(k),
            ).len() == frame::levels(frame, depth)[k] && decoder::room(before + lines.take(k)) >= decoder::room(
                before,
            ) by {
                if k > 0 {
                    assert(before + lines.take(k) =~= head + inner.take(k - 1));
                    assert(opens(head + inner.take(k - 1)).len() == frame::levels_of(
                        values,
                        depth + 1,
                    )[k - 1]);
                    assert(decoder::room(head + inner.take(k - 1)) >= decoder::room(head) - values.len() + 1);
                }
            }
        },
        _ => {
            lemma_push(before, frame::root(frame));
            assert(lines =~= seq![frame::root(frame)]);
            assert forall|k: int| 0 <= k < lines.len() implies opens(
                before + #[trigger] lines.take(k),
            ).len() == frame::levels(frame, depth)[k] && decoder::room(before + lines.take(k)) >= decoder::room(
                before,
            ) by {
                assert(k == 0);
            }
        },
    }
}

/// What the lines of some of the values of an open array do to it.
proof fn lemma_run_shape(
    before: Seq<NodeModel>,
    frames: Seq<FrameModel>,
    outer: Seq<nat>,
    waiting: nat,
)
    requires
        opens(before) == outer.push(waiting),
        0 < frames.len() <= waiting,
    ensures
        opens(before + frame::preorders(frames)) == if waiting > frames.len() {
            outer.push((waiting - frames.len()) as nat)
        } else {
            decoder::close(outer)
        },
        decoder::room(before + frame::preorders(frames)) == decoder::room(before) - frames.len(),
        forall|k: int|
            0 <= k < frame::preorders(frames).len() ==> opens(
                before + #[trigger] frame::preorders(frames).take(k),
            ).len() == frame::levels_of(frames, outer.len() + 1)[k] && decoder::room(
                before + frame::preorders(frames).take(k),
            ) >= decoder::room(before) - frames.len() + 1,
    decreases frames,
{
    let depth = outer.len() + 1;
    let first = frame::preorder(frames[0]);
    let tail = frames.subrange(1, frames.len() as int);
    let lines = frame::preorders(frames);
    let middle = before + first;
    lemma_frame_shape(before, frames[0]);
    frame::lemma_levels_len(frames[0], depth);
    frame::lemma_levels_of_len(tail, depth);
    assert(outer.push(waiting).drop_last() =~= outer);
    assert(before + lines =~= middle + frame::preorders(tail));
    if tail.len() > 0 {
        assert(opens(middle) =~= outer.push((waiting - 1) as nat));
        lemma_run_shape(middle, tail, outer, (waiting - 1) as nat);
    } else {
        assert(frame::preorders(tail) =~= Seq::<NodeModel>::empty());
        assert(middle + frame::preorders(tail) =~= middle);
        if waiting > 1 {
            assert(opens(middle) =~= outer.push((waiting - 1) as nat));
        }
    }
    assert forall|k: int| 0 <= k < lines.len() implies opens(
        before + #[trigger] lines.take(k),
    ).len() == frame::levels_of(frames, depth)[k] && decoder::room(before + lines.take(k)) >= decoder::room(before)
        - frames.len() + 1 by {
        if k < first.len() {
            assert(before + lines.take(k) =~= before + first.take(k));
            assert(opens(before + first.take(k)).len() == frame::levels(frames[0], depth)[k]);
            assert(decoder::room(before + first.take(k)) >= decoder::room(before));
        } else {
            let j = k - first.len();
            assert(before + lines.take(k) =~= middle + frame::preorders(tail).take(j));
            assert(opens(middle + frame::preorders(tail).take(j)).len() == frame::levels_of(tail, depth)[j]);
            assert(decoder::room(middle + frame::preorders(tail).take(j)) >= decoder::room(middle) - tail.len() + 1);
        }
    }
}

/// The scan after the first `count` lines of a frame, before its last line.
spec fn reached(nodes: Seq<NodeModel>, count: int) -> Scan {
    Scan {
        phase: Phase::Prefix,
        nodes: nodes.take(count),
        open: opens(nodes.take(count)),
        started: count as nat,
        pending: decoder::room(nodes.take(count)) as nat,
        consumed: frame::wire(nodes.take(count)).len(),
    }
}

/// What a step leaves for the bytes behind it.
spec fn after(limits: RespLimits, done: Step, rest: Seq<u8>) -> Outcome {
    match done {
        Step::Fail(error) => Outcome::Failed(error),
        Step::Done(last) => Outcome::Complete { nodes: last.nodes, consumed: last.consumed },
        Step::More(next) => decoder::run(limits, next, rest),
    }
}

/// Reading the text of a line, byte by byte.
proof fn lemma_text(limits: RespLimits, scan: Scan, kind: u8, have: Seq<u8>, text: Seq<u8>, rest: Seq<u8>)
    requires
        scan.phase == (Phase::Line { kind, text: have, saw_cr: false }),
        encoder::one_line(text),
        have.len() + text.len() + 3 <= limits.max_line_bytes,
        scan.consumed + text.len() + 2 <= limits.max_frame_bytes,
    ensures
        decoder::run(limits, scan, text + rest) == decoder::run(
            limits,
            Scan {
                phase: Phase::Line { kind, text: have + text, saw_cr: false },
                consumed: scan.consumed + text.len(),
                ..scan
            },
            rest,
        ),
    decreases text.len(),
{
    if text.len() == 0 {
        assert(text + rest =~= rest);
        assert(have + text =~= have);
    } else {
        let next = Scan {
            phase: Phase::Line { kind, text: have.push(text[0]), saw_cr: false },
            consumed: scan.consumed + 1,
            ..scan
        };
        assert((text + rest)[0] == text[0]);
        assert(text[0] != 13 && text[0] != 10);
        assert(decoder::step(limits, scan, text[0]) == Step::More(next));
        assert((text + rest).skip(1) =~= text.skip(1) + rest);
        lemma_text(limits, next, kind, have.push(text[0]), text.skip(1), rest);
        assert(have.push(text[0]) + text.skip(1) =~= have + text);
    }
}

/// Reading a whole line.
proof fn lemma_line(limits: RespLimits, scan: Scan, kind: u8, text: Seq<u8>, rest: Seq<u8>)
    requires
        scan.phase is Prefix,
        decoder::is_prefix(kind),
        kind == 42 ==> scan.open.len() < limits.max_depth,
        scan.started + 1 <= limits.max_nodes,
        scan.pending >= 1,
        encoder::one_line(text),
        text.len() + 3 <= limits.max_line_bytes,
        scan.consumed + text.len() + 3 <= limits.max_frame_bytes,
    ensures
        decoder::run(limits, scan, frame::line_bytes(kind, text) + rest) == after(
            limits,
            decoder::line_finished(
                limits,
                Scan {
                    phase: Phase::Line { kind, text, saw_cr: true },
                    started: scan.started + 1,
                    pending: (scan.pending - 1) as nat,
                    consumed: scan.consumed + text.len() + 3,
                    ..scan
                },
                kind,
                text,
            ),
            rest,
        ),
{
    let input = frame::line_bytes(kind, text) + rest;
    let opened = Scan {
        phase: Phase::Line { kind, text: Seq::empty(), saw_cr: false },
        started: scan.started + 1,
        pending: (scan.pending - 1) as nat,
        consumed: scan.consumed + 1,
        ..scan
    };
    assert(input[0] == kind);
    assert(decoder::step(limits, scan, kind) == Step::More(opened));
    let ending = seq![13u8, 10u8] + rest;
    assert(input.skip(1) =~= text + ending);
    lemma_text(limits, opened, kind, Seq::empty(), text, ending);
    assert(Seq::<u8>::empty() + text =~= text);
    let texted = Scan {
        phase: Phase::Line { kind, text, saw_cr: false },
        consumed: scan.consumed + 1 + text.len(),
        ..opened
    };
    let returned = Scan {
        phase: Phase::Line { kind, text, saw_cr: true },
        consumed: scan.consumed + 2 + text.len(),
        ..opened
    };
    assert(ending[0] == 13);
    assert(decoder::step(limits, texted, 13) == Step::More(returned));
    assert(ending.skip(1) =~= seq![10u8] + rest);
    assert((seq![10u8] + rest)[0] == 10);
    assert((seq![10u8] + rest).skip(1) =~= rest);
    assert(decoder::run(limits, texted, ending) == decoder::run(limits, returned, seq![10u8] + rest));
}

proof fn lemma_bulk(limits: RespLimits, scan: Scan, data: Seq<u8>, have: Seq<u8>, rest: Seq<u8>)
    requires
        scan.phase == (Phase::Bulk { length: have.len() + data.len(), data: have, saw_cr: false }),
    ensures
        decoder::run(limits, scan, data + seq![13u8, 10u8] + rest) == after(
            limits,
            decoder::node_finished(
                Scan {
                    phase: Phase::Bulk {
                        length: have.len() + data.len(),
                        data: have + data,
                        saw_cr: true,
                    },
                    consumed: scan.consumed + data.len() + 2,
                    ..scan
                },
                NodeModel::Bulk(Some(have + data)),
            ),
            rest,
        ),
    decreases data.len(),
{
    let input = data + seq![13u8, 10u8] + rest;
    if data.len() == 0 {
        assert(have + data =~= have);
        let returned = Scan {
            phase: Phase::Bulk { length: have.len(), data: have, saw_cr: true },
            consumed: scan.consumed + 1,
            ..scan
        };
        assert(input[0] == 13);
        assert(decoder::step(limits, scan, 13) == Step::More(returned));
        assert(input.skip(1) =~= seq![10u8] + rest);
        assert((seq![10u8] + rest)[0] == 10);
        assert((seq![10u8] + rest).skip(1) =~= rest);
        assert(decoder::run(limits, scan, input) == decoder::run(limits, returned, seq![10u8] + rest));
    } else {
        let next = Scan {
            phase: Phase::Bulk {
                length: have.len() + data.len(),
                data: have.push(data[0]),
                saw_cr: false,
            },
            consumed: scan.consumed + 1,
            ..scan
        };
        assert(input[0] == data[0]);
        assert(decoder::step(limits, scan, data[0]) == Step::More(next));
        assert(input.skip(1) =~= data.skip(1) + seq![13u8, 10u8] + rest);
        lemma_bulk(limits, next, data.skip(1), have.push(data[0]), rest);
        assert(have.push(data[0]) + data.skip(1) =~= have + data);
    }
}

/// The text of a written number is read back as that number.
proof fn lemma_number_text(value: int)
    ensures
        i64::MIN <= value <= i64::MAX ==> decoder::integer_value(numbers::signed_decimal(value)) == Ok::<
            i64,
            &'static str,
        >(value as i64),
        0 <= value <= usize::MAX ==> decoder::length_value(numbers::decimal(value as nat)) == Ok::<
            Option<nat>,
            &'static str,
        >(Some(value as nat)),
        value >= 0 ==> encoder::one_line(numbers::decimal(value as nat)),
        encoder::one_line(numbers::signed_decimal(value)),
        encoder::one_line(seq![45u8, 49u8]),
{
    if value >= 0 {
        numbers::lemma_decimal_value(value as nat, value as nat);
        let text = numbers::decimal(value as nat);
        assert(numbers::is_digit(text[0]));
        assert(encoder::one_line(text)) by {
            assert forall|i: int| 0 <= i < text.len() implies #[trigger] text[i] != 13 && text[i]
                != 10 by {
                assert(numbers::is_digit(text[i]));
            }
        }
        if value <= usize::MAX {
            numbers::lemma_decimal_value(value as nat, usize::MAX as nat);
        }
        if value <= i64::MAX {
            numbers::lemma_decimal_value(value as nat, 0x8000_0000_0000_0000);
        }
    } else {
        let digits = numbers::decimal((-value) as nat);
        let text = numbers::signed_decimal(value);
        numbers::lemma_decimal_value((-value) as nat, (-value) as nat);
        assert(encoder::one_line(text)) by {
            assert forall|i: int| 0 <= i < text.len() implies #[trigger] text[i] != 13 && text[i]
                != 10 by {
                if i > 0 {
                    assert(numbers::is_digit(digits[i - 1]));
                }
            }
        }
        if value >= i64::MIN {
            numbers::lemma_decimal_value((-value) as nat, 0x8000_0000_0000_0000);
            assert(text.skip(1) =~= digits);
        }
    }
}

/// Nodes are announced before they come, and each takes three bytes or more.
proof fn lemma_remaining(nodes: Seq<NodeModel>, count: int)
    requires
        0 <= count <= nodes.len(),
    ensures
        encoder::declared(nodes.take(count)) <= encoder::declared(nodes),
        frame::wire(nodes.take(count)).len() + 3 * (nodes.len() - count) <= frame::wire(nodes).len(),
    decreases nodes.len() - count,
{
    if count < nodes.len() {
        lemma_remaining(nodes, count + 1);
        assert(nodes.take(count + 1).drop_last() =~= nodes.take(count));
    } else {
        assert(nodes.take(count) =~= nodes);
    }
}

/// What reading the node at `index` comes to.
spec fn landed(nodes: Seq<NodeModel>, index: int, limits: RespLimits, rest: Seq<u8>) -> Outcome {
    if opens(nodes.take(index + 1)).len() == 0 {
        Outcome::Complete {
            nodes: nodes.take(index + 1),
            consumed: frame::wire(nodes.take(index + 1)).len(),
        }
    } else {
        decoder::run(limits, reached(nodes, index + 1), rest)
    }
}

/// The scan behind the line of the node at `index`.
spec fn moved(nodes: Seq<NodeModel>, index: int, phase: Phase, length: int) -> Scan {
    let scan = reached(nodes, index);
    Scan {
        phase,
        started: scan.started + 1,
        pending: (scan.pending - 1) as nat,
        consumed: scan.consumed + length as nat,
        ..scan
    }
}

proof fn lemma_landing(
    nodes: Seq<NodeModel>,
    index: int,
    limits: RespLimits,
    rest: Seq<u8>,
    phase: Phase,
)
    requires
        0 <= index < nodes.len(),
        decoder::room(nodes.take(index)) >= 1,
        nodes[index] is Array ==> nodes[index]->Array_0 is None || nodes[index]->Array_0 == Some(
            0nat,
        ),
    ensures
        after(
            limits,
            decoder::node_finished(
                moved(nodes, index, phase, frame::node_bytes(nodes[index]).len() as int),
                nodes[index],
            ),
            rest,
        ) == landed(nodes, index, limits, rest),
{
    let node = nodes[index];
    let grown = nodes.take(index + 1);
    assert(grown.drop_last() =~= nodes.take(index));
    assert(grown =~= nodes.take(index).push(node));
    assert(nodes.take(index) + seq![node] =~= grown);
    lemma_push(nodes.take(index), node);
}

/// Reading one written node of a frame that breaks no limit.
#[verifier::rlimit(40)]
#[verifier::spinoff_prover]
proof fn lemma_node(
    nodes: Seq<NodeModel>,
    depths: Seq<nat>,
    index: int,
    limits: RespLimits,
    rest: Seq<u8>,
)
    requires
        decoder::whole(nodes),
        depths.len() == nodes.len(),
        0 <= index < nodes.len(),
        opens(nodes.take(index)).len() == depths[index],
        encoder::fault_at(nodes, depths, index, limits) is None,
        frame::wire(nodes).len() <= limits.max_frame_bytes,
        limits::limits_fault(limits) is None,
    ensures
        decoder::run(limits, reached(nodes, index), frame::node_bytes(nodes[index]) + rest) == landed(
            nodes,
            index,
            limits,
            rest,
        ),
{
    let scan = reached(nodes, index);
    let node = nodes[index];
    let grown = nodes.take(index + 1);
    assert(grown.drop_last() =~= nodes.take(index));
    assert(grown =~= nodes.take(index).push(node));
    assert(nodes.take(index) + seq![node] =~= grown);
    lemma_push(nodes.take(index), node);
    lemma_remaining(nodes, index);
    lemma_remaining(nodes, index + 1);
    assert(decoder::room(nodes.take(index)) >= 1);
    match node {
        NodeModel::Simple(text) => {
            lemma_line(limits, scan, 43, text, rest);
            lemma_landing(
                nodes,
                index,
                limits,
                rest,
                Phase::Line { kind: 43, text: text, saw_cr: true },
            );
        },
        NodeModel::Error(text) => {
            lemma_line(limits, scan, 45, text, rest);
            lemma_landing(
                nodes,
                index,
                limits,
                rest,
                Phase::Line { kind: 45, text: text, saw_cr: true },
            );
        },
        NodeModel::Integer(value) => {
            lemma_number_text(value as int);
            lemma_line(limits, scan, 58, numbers::signed_decimal(value as int), rest);
            lemma_landing(
                nodes,
                index,
                limits,
                rest,
                Phase::Line { kind: 58, text: numbers::signed_decimal(value as int), saw_cr: true },
            );
        },
        NodeModel::Bulk(None) => {
            lemma_number_text(0);
            lemma_line(limits, scan, 36, seq![45u8, 49u8], rest);
            lemma_landing(
                nodes,
                index,
                limits,
                rest,
                Phase::Line { kind: 36, text: seq![45u8, 49u8], saw_cr: true },
            );
        },
        NodeModel::Bulk(Some(data)) => {
            lemma_number_text(data.len() as int);
            let text = numbers::decimal(data.len());
            let ending = data + seq![13u8, 10u8] + rest;
            assert(frame::node_bytes(node) + rest =~= frame::line_bytes(36, text) + ending);
            lemma_line(limits, scan, 36, text, ending);
            let opened = Scan {
                phase: Phase::Bulk { length: data.len(), data: Seq::empty(), saw_cr: false },
                started: scan.started + 1,
                pending: (scan.pending - 1) as nat,
                consumed: scan.consumed + text.len() + 3,
                ..scan
            };
            assert(frame::node_bytes(node).len() == text.len() + 3 + data.len() + 2);
            lemma_bulk(limits, opened, data, Seq::empty(), rest);
            assert(Seq::<u8>::empty() + data =~= data);
            lemma_landing(
                nodes,
                index,
                limits,
                rest,
                Phase::Bulk { length: data.len(), data, saw_cr: true },
            );
        },
        NodeModel::Array(None) => {
            lemma_number_text(0);
            lemma_line(limits, scan, 42, seq![45u8, 49u8], rest);
            lemma_landing(
                nodes,
                index,
                limits,
                rest,
                Phase::Line { kind: 42, text: seq![45u8, 49u8], saw_cr: true },
            );
        },
        NodeModel::Array(Some(count)) => {
            lemma_number_text(count as int);
            lemma_line(limits, scan, 42, numbers::decimal(count), rest);
            if count == 0 {
                lemma_landing(
                    nodes,
                    index,
                    limits,
                    rest,
                    Phase::Line { kind: 42, text: numbers::decimal(count), saw_cr: true },
                );
            }
        },
    }
}

/// Reading the nodes of a frame from `index` on.
proof fn lemma_simulation(
    nodes: Seq<NodeModel>,
    depths: Seq<nat>,
    index: int,
    limits: RespLimits,
    suffix: Seq<u8>,
)
    requires
        decoder::whole(nodes),
        depths.len() == nodes.len(),
        0 <= index < nodes.len(),
        opens(nodes).len() == 0,
        forall|k: int| 0 <= k < nodes.len() ==> (#[trigger] opens(nodes.take(k))).len()
            == depths[k],
        forall|k: int| 0 <= k < nodes.len() ==> #[trigger] encoder::fault_at(nodes, depths, k, limits)
            is None,
        limits::limits_fault(limits) is None,
    ensures
        decoder::run(limits, reached(nodes, index), frame::wire(nodes.skip(index)) + suffix) == (Outcome::Complete {
            nodes,
            consumed: frame::wire(nodes).len(),
        }),
    decreases nodes.len() - index,
{
    let rest = nodes.skip(index + 1);
    assert(nodes.skip(index) =~= seq![nodes[index]] + rest);
    frame::lemma_wire_concat(seq![nodes[index]], rest);
    assert(seq![nodes[index]].drop_last() =~= Seq::<NodeModel>::empty());
    assert(frame::wire(Seq::<NodeModel>::empty()) =~= Seq::<u8>::empty());
    assert(frame::wire(seq![nodes[index]]) =~= frame::node_bytes(nodes[index]));
    assert(frame::wire(nodes.skip(index)) + suffix =~= frame::node_bytes(nodes[index]) + (frame::wire(rest) + suffix));
    let last = nodes.len() - 1;
    assert(encoder::fault_at(nodes, depths, last, limits) is None);
    assert(nodes.take(last + 1) =~= nodes);
    lemma_node(nodes, depths, index, limits, frame::wire(rest) + suffix);
    if index == last {
        assert(nodes.take(index + 1) =~= nodes);
    } else {
        assert(opens(nodes.take(index + 1)).len() == depths[index + 1]);
        lemma_open_until_whole(nodes, index + 1);
        lemma_simulation(nodes, depths, index + 1, limits, suffix);
    }
}

spec fn excess(open: Seq<nat>) -> int
    decreases open.len(),
{
    if open.len() == 0 {
        0
    } else {
        excess(open.drop_last()) + open.last() - 1
    }
}

proof fn lemma_close_room(open: Seq<nat>)
    ensures
        open.len() > 0 && decoder::close(open).len() == 0 ==> excess(open) <= 0,
        decoder::close(open).len() > 0 ==> 1 + excess(decoder::close(open)) >= excess(open),
    decreases open.len(),
{
    if open.len() > 0 {
        let below = open.drop_last();
        if open.last() > 1 {
            assert(decoder::close(open).drop_last() =~= below);
        } else {
            lemma_close_room(below);
        }
    }
}

/// While announced nodes are missing, some array is open.
proof fn lemma_open_until_whole(nodes: Seq<NodeModel>, count: int)
    requires
        0 < count <= nodes.len(),
    ensures
        opens(nodes.take(count)).len() == 0 ==> decoder::room(nodes.take(count)) <= 0,
        opens(nodes.take(count)).len() > 0 ==> decoder::room(nodes.take(count)) <= 1 + excess(
            opens(nodes.take(count)),
        ),
    decreases count,
{
    let grown = nodes.take(count);
    let node = nodes[count - 1];
    assert(grown.drop_last() =~= nodes.take(count - 1));
    assert(nodes.take(count - 1) + seq![node] =~= grown);
    lemma_push(nodes.take(count - 1), node);
    let before = opens(nodes.take(count - 1));
    lemma_close_room(before);
    if count > 1 {
        lemma_open_until_whole(nodes, count - 1);
    } else {
        assert(nodes.take(0) =~= Seq::<NodeModel>::empty());
    }
    if let NodeModel::Array(Some(values)) = node {
        if values > 0 {
            assert(before.push(values).drop_last() =~= before);
        }
    }
}

/// The lines of a frame stand for that frame.
proof fn lemma_forest_of_frame(nodes: Seq<NodeModel>, index: int, frame: FrameModel)
    requires
        0 <= index,
        index + frame::preorder(frame).len() <= nodes.len(),
        nodes.subrange(index, index + frame::preorder(frame).len()) == frame::preorder(frame),
    ensures
        decoder::forest(nodes, index) == seq![frame] + decoder::forest(nodes, index + frame::preorder(frame).len()),
    decreases frame,
{
    frame::lemma_levels_len(frame, 0);
    let lines = frame::preorder(frame);
    assert(nodes[index] == nodes.subrange(index, index + lines.len())[0]);
    if let FrameModel::Array(Some(values)) = frame {
        let inner = frame::preorders(values);
        assert(nodes.subrange(index + 1, index + 1 + inner.len()) =~= inner) by {
            assert forall|k: int| 0 <= k < inner.len() implies nodes[index + 1 + k]
                == inner[k] by {
                assert(nodes.subrange(index, index + lines.len())[k + 1] == lines[k + 1]);
            }
        }
        lemma_forest_of_run(nodes, index + 1, values);
        let rest = decoder::forest(nodes, index + 1);
        assert(rest.take(values.len() as int) =~= values);
        assert(rest.skip(values.len() as int) =~= decoder::forest(nodes, index + lines.len()));
    }
}

proof fn lemma_forest_of_run(nodes: Seq<NodeModel>, index: int, frames: Seq<FrameModel>)
    requires
        0 <= index,
        index + frame::preorders(frames).len() <= nodes.len(),
        nodes.subrange(index, index + frame::preorders(frames).len()) == frame::preorders(frames),
    ensures
        decoder::forest(nodes, index) == frames + decoder::forest(nodes, index + frame::preorders(frames).len()),
    decreases frames,
{
    if frames.len() == 0 {
        assert(frames + decoder::forest(nodes, index) =~= decoder::forest(nodes, index));
    } else {
        let first = frame::preorder(frames[0]);
        let tail = frames.subrange(1, frames.len() as int);
        let lines = frame::preorders(frames);
        assert(nodes.subrange(index, index + first.len()) =~= first) by {
            assert forall|k: int| 0 <= k < first.len() implies nodes[index + k] == first[k] by {
                assert(nodes.subrange(index, index + lines.len())[k] == lines[k]);
            }
        }
        let next = index + first.len();
        assert(nodes.subrange(next, next + frame::preorders(tail).len()) =~= frame::preorders(tail)) by {
            assert forall|k: int| 0 <= k < frame::preorders(tail).len() implies nodes[next + k]
                == frame::preorders(tail)[k] by {
                assert(nodes.subrange(index, index + lines.len())[first.len() + k]
                    == lines[first.len() + k]);
            }
        }
        lemma_forest_of_frame(nodes, index, frames[0]);
        lemma_forest_of_run(nodes, next, tail);
        assert(seq![frames[0]] + tail =~= frames);
        assert(seq![frames[0]] + (tail + decoder::forest(nodes, next + frame::preorders(tail).len())) =~= frames
            + decoder::forest(nodes, next + frame::preorders(tail).len()));
    }
}

/// The lines of one run of frames behind another.
pub proof fn lemma_preorders_concat(left: Seq<FrameModel>, right: Seq<FrameModel>)
    ensures
        frame::preorders(left + right) == frame::preorders(left) + frame::preorders(right),
    decreases left.len(),
{
    let all = left + right;
    if left.len() == 0 {
        assert(all =~= right);
        assert(frame::preorders(left) + frame::preorders(right) =~= frame::preorders(right));
    } else {
        let tail = left.subrange(1, left.len() as int);
        lemma_preorders_concat(tail, right);
        assert(all.subrange(1, all.len() as int) =~= tail + right);
        assert(frame::preorders(all) =~= frame::preorders(left) + frame::preorders(right));
    }
}

/// The frames that a whole run of nodes stands for have these nodes as their lines.
proof fn lemma_lines_of_forest(nodes: Seq<NodeModel>, index: int)
    requires
        decoder::whole(nodes),
        0 <= index <= nodes.len(),
    ensures
        frame::preorders(decoder::forest(nodes, index)) == nodes.skip(index),
    decreases nodes.len() - index,
{
    if index == nodes.len() {
        assert(nodes.skip(index) =~= Seq::<NodeModel>::empty());
    } else {
        lemma_lines_of_forest(nodes, index + 1);
        decoder::lemma_forest(nodes, index);
        let rest = decoder::forest(nodes, index + 1);
        let all = decoder::forest(nodes, index);
        assert(seq![nodes[index]] + nodes.skip(index + 1) =~= nodes.skip(index));
        match nodes[index] {
            NodeModel::Array(Some(count)) => {
                let inner = rest.take(count as int);
                let behind = rest.skip(count as int);
                assert(inner + behind =~= rest);
                lemma_preorders_concat(inner, behind);
                assert(all[0] == FrameModel::Array(Some(inner)));
                assert(all.subrange(1, all.len() as int) =~= behind);
                assert(frame::preorder(all[0]) =~= seq![nodes[index]] + frame::preorders(inner));
                assert(frame::preorders(all) == frame::preorder(all[0]) + frame::preorders(behind));
                assert(frame::preorders(all) =~= seq![nodes[index]] + frame::preorders(rest));
            },
            _ => {
                assert(all.subrange(1, all.len() as int) =~= rest);
                assert(frame::preorder(all[0]) =~= seq![nodes[index]]);
                assert(frame::preorders(all) == frame::preorder(all[0]) + frame::preorders(rest));
            },
        }
    }
}

/// Whether a line can be written behind others.
spec fn suits(limits: RespLimits, before: Seq<NodeModel>, node: NodeModel) -> bool {
    match node {
        NodeModel::Simple(text) => text.len() + 3 <= limits.max_line_bytes && encoder::one_line(text),
        NodeModel::Error(text) => text.len() + 3 <= limits.max_line_bytes && encoder::one_line(text),
        NodeModel::Integer(value) => numbers::signed_decimal(value as int).len() + 3
            <= limits.max_line_bytes,
        NodeModel::Bulk(None) => 5 <= limits.max_line_bytes,
        NodeModel::Bulk(Some(data)) => data.len() <= limits.max_bulk_bytes && numbers::decimal(
            data.len(),
        ).len() + 3 <= limits.max_line_bytes,
        NodeModel::Array(None) => opens(before).len() < limits.max_depth && 5
            <= limits.max_line_bytes,
        NodeModel::Array(Some(count)) => opens(before).len() < limits.max_depth
            && encoder::declared(before) + count <= limits.max_nodes && numbers::decimal(count).len()
            + 3 <= limits.max_line_bytes,
    }
}

/// Whether all lines can be written, each behind those before it.
spec fn all_suit(limits: RespLimits, nodes: Seq<NodeModel>) -> bool {
    forall|k: int| 0 <= k < nodes.len() ==> suits(limits, nodes.take(k), #[trigger] nodes[k])
}

/// What the bytes of a scan leave to be written.
spec fn kept(limits: RespLimits, scan: Scan) -> bool {
    let size = frame::wire(scan.nodes).len();
    &&& scan.open == opens(scan.nodes)
    &&& all_suit(limits, scan.nodes)
    &&& match scan.phase {
        Phase::Prefix => size <= scan.consumed,
        Phase::Line { text, saw_cr, .. } => encoder::one_line(text) && size + 1 + text.len() + (
        if saw_cr {
            1int
        } else {
            0int
        }) <= scan.consumed,
        Phase::Bulk { length, data, saw_cr } => {
            let ended = if saw_cr {
                1int
            } else {
                0int
            };
            &&& length <= limits.max_bulk_bytes
            &&& numbers::decimal(length).len() + 3 <= limits.max_line_bytes
            &&& size + 3 + numbers::decimal(length).len() + data.len() + ended <= scan.consumed
            &&& scan.consumed + length - data.len() + 2 - ended <= limits.max_frame_bytes
        },
    }
}

/// One more line.
proof fn lemma_suits_push(limits: RespLimits, nodes: Seq<NodeModel>, node: NodeModel)
    requires
        all_suit(limits, nodes),
        suits(limits, nodes, node),
    ensures
        all_suit(limits, nodes.push(node)),
        frame::wire(nodes.push(node)).len() == frame::wire(nodes).len() + frame::node_bytes(
            node,
        ).len(),
        opens(nodes.push(node)) == opens(nodes + seq![node]),
{
    let grown = nodes.push(node);
    assert(grown.drop_last() =~= nodes);
    assert(grown =~= nodes + seq![node]);
    assert forall|k: int| 0 <= k < grown.len() implies suits(
        limits,
        grown.take(k),
        #[trigger] grown[k],
    ) by {
        if k < nodes.len() {
            assert(grown.take(k) =~= nodes.take(k));
            assert(suits(limits, nodes.take(k), nodes[k]));
        } else {
            assert(grown.take(k) =~= nodes);
        }
    }
}

/// Finishing a line that can be written.
proof fn lemma_kept_node(limits: RespLimits, scan: Scan, node: NodeModel)
    requires
        scan.open == opens(scan.nodes),
        all_suit(limits, scan.nodes),
        suits(limits, scan.nodes, node),
        node is Array ==> node->Array_0 is None || node->Array_0 == Some(0nat),
        frame::wire(scan.nodes).len() + frame::node_bytes(node).len() <= scan.consumed,
    ensures
        match decoder::node_finished(scan, node) {
            Step::More(next) => kept(limits, next),
            Step::Done(last) => all_suit(limits, last.nodes) && last.nodes == scan.nodes.push(node)
                && frame::wire(last.nodes).len() <= last.consumed && last.consumed == scan.consumed,
            Step::Fail(_) => false,
        },
{
    lemma_suits_push(limits, scan.nodes, node);
    lemma_push(scan.nodes, node);
}

/// The text of an integer is never shorter than its canonical text.
proof fn lemma_integer_text(text: Seq<u8>)
    requires
        decoder::integer_value(text) is Ok,
    ensures
        numbers::signed_decimal(decoder::integer_value(text)->Ok_0 as int).len() <= text.len(),
{
    let signed = text.len() > 0 && (text[0] == 45 || text[0] == 43);
    let digits = if signed {
        text.skip(1)
    } else {
        text
    };
    let max = 0x8000_0000_0000_0000nat;
    numbers::lemma_decimal_shortest(digits, max);
    numbers::lemma_digits_bound(digits, max);
    let value = numbers::digits_value(digits, max)->Ok_0;
    if value == 0 {
        assert(numbers::signed_decimal(0).len() == 1);
    }
}

/// One byte more.
proof fn lemma_kept_step(limits: RespLimits, scan: Scan, byte: u8)
    requires
        decoder::sound(limits, scan),
        kept(limits, scan),
        decoder::doomed(limits, scan) is None,
    ensures
        match decoder::step(limits, scan, byte) {
            Step::More(next) => kept(limits, next),
            Step::Done(last) => all_suit(limits, last.nodes) && frame::wire(last.nodes).len()
                <= last.consumed <= limits.max_frame_bytes && last.nodes.len() <= limits.max_nodes,
            Step::Fail(_) => true,
        },
{
    decoder::lemma_sound_counts(limits, scan);
    let moved = Scan { consumed: scan.consumed + 1, ..scan };
    match scan.phase {
        Phase::Prefix => {},
        Phase::Line { kind, text, saw_cr } => {
            if saw_cr && byte == 10 {
                lemma_kept_line(limits, moved, kind, text);
            }
        },
        Phase::Bulk { length, data, saw_cr } => {
            if data.len() >= length && saw_cr && byte == 10 {
                lemma_kept_node(limits, moved, NodeModel::Bulk(Some(data)));
            }
        },
    }
}

/// One line more.
proof fn lemma_kept_line(limits: RespLimits, scan: Scan, kind: u8, text: Seq<u8>)
    requires
        scan.open == opens(scan.nodes),
        all_suit(limits, scan.nodes),
        encoder::one_line(text),
        text.len() + 3 <= limits.max_line_bytes,
        frame::wire(scan.nodes).len() + 3 + text.len() <= scan.consumed <= limits.max_frame_bytes,
        scan.started == scan.nodes.len() + 1,
        scan.pending + 1 == decoder::room(scan.nodes),
        scan.started + scan.pending <= limits.max_nodes,
        decoder::is_prefix(kind),
        kind == 42 ==> scan.open.len() < limits.max_depth,
    ensures
        match decoder::line_finished(limits, scan, kind, text) {
            Step::More(next) => kept(limits, next),
            Step::Done(last) => all_suit(limits, last.nodes) && frame::wire(last.nodes).len()
                <= last.consumed <= limits.max_frame_bytes && last.nodes.len() <= limits.max_nodes,
            Step::Fail(_) => true,
        },
{
    if kind == 43 {
        lemma_kept_node(limits, scan, NodeModel::Simple(text));
    } else if kind == 45 {
        lemma_kept_node(limits, scan, NodeModel::Error(text));
    } else if kind == 58 {
        if let Ok(value) = decoder::integer_value(text) {
            lemma_integer_text(text);
            lemma_kept_node(limits, scan, NodeModel::Integer(value));
        }
    } else {
        match decoder::length_value(text) {
            Err(_) => {},
            Ok(None) => {
                if kind == 36 {
                    lemma_kept_node(limits, scan, NodeModel::Bulk(None));
                } else {
                    lemma_kept_node(limits, scan, NodeModel::Array(None));
                }
            },
            Ok(Some(length)) => {
                numbers::lemma_decimal_shortest(text, usize::MAX as nat);
                let node = NodeModel::Array(Some(length));
                if kind == 42 && scan.started + scan.pending + length <= limits.max_nodes {
                    if length > 0 {
                        lemma_suits_push(limits, scan.nodes, node);
                        lemma_push(scan.nodes, node);
                    } else {
                        lemma_kept_node(limits, scan, node);
                    }
                }
            },
        }
    }
}

proof fn lemma_kept_run(limits: RespLimits, scan: Scan, input: Seq<u8>)
    requires
        decoder::sound(limits, scan),
        kept(limits, scan),
    ensures
        decoder::run(limits, scan, input) matches Outcome::Complete { nodes, consumed }
            ==> decoder::whole(nodes) && all_suit(limits, nodes) && frame::wire(nodes).len()
            <= consumed <= limits.max_frame_bytes && nodes.len() <= limits.max_nodes,
    decreases input.len(),
{
    if decoder::doomed(limits, scan) is None && input.len() > 0 {
        decoder::lemma_step_sound(limits, scan, input[0]);
        lemma_kept_step(limits, scan, input[0]);
        if let Step::More(next) = decoder::step(limits, scan, input[0]) {
            lemma_kept_run(limits, next, input.skip(1));
        }
    }
}

proof fn lemma_faultless(
    nodes: Seq<NodeModel>,
    depths: Seq<nat>,
    index: int,
    limits: RespLimits,
)
    requires
        0 <= index <= nodes.len() <= limits.max_nodes,
        depths.len() == nodes.len(),
        all_suit(limits, nodes),
        frame::wire(nodes).len() <= limits.max_frame_bytes,
        forall|k: int| 0 <= k < nodes.len() ==> (#[trigger] depths[k]) == opens(nodes.take(k)).len(),
    ensures
        encoder::fault_from(nodes, depths, index, limits) is None,
    decreases nodes.len() - index,
{
    if index < nodes.len() {
        lemma_faultless(nodes, depths, index + 1, limits);
        let head = nodes.take(index + 1);
        assert(head.drop_last() =~= nodes.take(index));
        frame::lemma_wire_concat(head, nodes.skip(index + 1));
        assert(head + nodes.skip(index + 1) =~= nodes);
        assert(suits(limits, nodes.take(index), nodes[index]));
        assert(depths[index] == opens(nodes.take(index)).len());
    }
}

/// What a decoder reads, an encoder with the same limits can write: the frame has the
/// lines that were read, it breaks no limit, and it takes no more bytes than were
/// read.
pub proof fn law_decoded_frames_can_be_written(limits: RespLimits, input: Seq<u8>)
    requires
        limits::limits_fault(limits) is None,
        decoder::decoded(limits, input) is Complete,
    ensures
        ({
            let nodes = decoder::decoded(limits, input)->nodes;
            let frame = decoder::assemble(nodes);
            &&& frame::preorder(frame) == nodes
            &&& encoder::frame_fault(frame, limits) is None
            &&& frame::encoding(frame).len() <= decoder::decoded(limits, input)->consumed
                <= limits.max_frame_bytes
        }),
{
    let start = decoder::start();
    assert(opens(start.nodes) =~= start.open);
    decoder::lemma_start_sound(limits);
    lemma_kept_run(limits, start, input);
    let nodes = decoder::decoded(limits, input)->nodes;
    let frames = decoder::forest(nodes, 0);
    let frame = decoder::assemble(nodes);
    decoder::lemma_forest(nodes, 0);
    assert(nodes.take(0) =~= Seq::<NodeModel>::empty());
    lemma_lines_of_forest(nodes, 0);
    assert(nodes.skip(0) =~= nodes);
    assert(frames.len() == 1);
    assert(frames.subrange(1, 1) =~= Seq::<FrameModel>::empty());
    assert(frame::preorders(frames) == frame::preorder(frames[0]) + frame::preorders(
        frames.subrange(1, 1),
    ));
    assert(frame::preorder(frame) =~= nodes);
    let depths = frame::levels(frame, 0);
    frame::lemma_levels_len(frame, 0);
    lemma_frame_shape(Seq::empty(), frame);
    assert forall|k: int| 0 <= k < nodes.len() implies (#[trigger] depths[k]) == opens(
        nodes.take(k),
    ).len() by {
        assert(Seq::<NodeModel>::empty() + nodes.take(k) =~= nodes.take(k));
        assert(opens(Seq::<NodeModel>::empty() + frame::preorder(frame).take(k)).len() == depths[k]);
    }
    lemma_faultless(nodes, depths, 0, limits);
}

} // verus!
