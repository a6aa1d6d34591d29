//! Incremental scan with bounded metadata and late materialization.

use super::error::ProtocolError;
use super::frame::{Frame, FrameModel, NodeModel};
use super::limits::RespLimits;
use crate::buffer::{buffer_advance, buffer_slice, copy_from_slice};
use crate::error::ConfigError;
use crate::numbers::{DigitFault, read_digits};
use bytes::{Bytes, BytesMut};
use crate::buffer;
use crate::numbers;
use crate::resp::encoder;
use crate::resp::frame;
use crate::resp::limits;
use vstd::prelude::*;
use vstd::slice::slice_subrange;

verus! {

/// Where the scan stands inside a node, with the bytes of the node so far.
#[verifier::ext_equal]
pub enum Phase {
    /// In front of a node.
    Prefix,
    /// Inside the line that starts a node.
    Line { kind: u8, text: Seq<u8>, saw_cr: bool },
    /// Inside the payload of a bulk string, or its terminator.
    Bulk { length: nat, data: Seq<u8>, saw_cr: bool },
}

/// What the bytes read so far amount to.
#[verifier::ext_equal]
pub struct Scan {
    pub phase: Phase,
    /// Finished nodes, parents before children.
    pub nodes: Seq<NodeModel>,
    /// Values that each open array still waits for, the innermost array last.
    pub open: Seq<nat>,
    /// Nodes whose prefix has been read.
    pub started: nat,
    /// Nodes announced whose prefix has not been read.
    pub pending: nat,
    /// Bytes read.
    pub consumed: nat,
}

/// What one byte does to a scan.
pub enum Step {
    More(Scan),
    Done(Scan),
    Fail(ProtocolError),
}

/// What a run of bytes amounts to.
pub enum Outcome {
    /// The bytes are a proper beginning of a frame.
    Incomplete(Scan),
    /// The first `consumed` bytes are a frame.
    Complete { nodes: Seq<NodeModel>, consumed: nat },
    /// No frame starts with these bytes.
    Failed(ProtocolError),
}

/// The scan before the first byte.
pub open spec fn start() -> Scan {
    Scan {
        phase: Phase::Prefix,
        nodes: Seq::empty(),
        open: Seq::empty(),
        started: 0,
        pending: 1,
        consumed: 0,
    }
}

/// The integer that the text of an integer line denotes.
pub open spec fn integer_value(text: Seq<u8>) -> Result<i64, &'static str> {
    let signed = text.len() > 0 && (text[0] == 45 || text[0] == 43);
    let digits = if signed { text.skip(1) } else { text };
    if digits.len() == 0 {
        Err("inteiro sem dígitos")
    } else {
        match numbers::digits_value(digits, 0x8000_0000_0000_0000) {
            Err(DigitFault::NotDigit) => Err("inteiro inválido"),
            Err(DigitFault::TooLarge) => Err("inteiro fora do intervalo"),
            Ok(value) => if signed && text[0] == 45 {
                Ok((-(value as int)) as i64)
            } else if value == 0x8000_0000_0000_0000 {
                Err("inteiro fora do intervalo")
            } else {
                Ok(value as i64)
            },
        }
    }
}

/// The length that the text of a bulk or array line denotes; -1 stands for none.
pub open spec fn length_value(text: Seq<u8>) -> Result<Option<nat>, &'static str> {
    if text == seq![45u8, 49u8] {
        Ok(None)
    } else if text.len() == 0 {
        Err("comprimento sem dígitos")
    } else {
        match numbers::digits_value(text, usize::MAX as nat) {
            Err(DigitFault::NotDigit) => Err("comprimento inválido"),
            Err(DigitFault::TooLarge) => Err("comprimento fora do intervalo"),
            Ok(value) => Ok(Some(value)),
        }
    }
}

/// The limit that a frame breaks however it goes on.
pub open spec fn doomed(limits: RespLimits, scan: Scan) -> Option<ProtocolError> {
    match scan.phase {
        Phase::Prefix => if scan.started > 0 && scan.consumed + 3 > limits.max_frame_bytes {
            Some(ProtocolError::LimitExceeded("max_frame_bytes"))
        } else {
            None
        },
        Phase::Line { text, saw_cr, .. } => if scan.consumed + (if saw_cr {
            1int
        } else {
            2int
        }) > limits.max_frame_bytes {
            Some(ProtocolError::LimitExceeded("max_frame_bytes"))
        } else if text.len() + 3 > limits.max_line_bytes {
            Some(ProtocolError::LimitExceeded("max_line_bytes"))
        } else {
            None
        },
        Phase::Bulk { .. } => None,
    }
}

/// The open arrays once one more value is finished.
pub open spec fn close(open: Seq<nat>) -> Seq<nat>
    decreases open.len(),
{
    if open.len() == 0 {
        open
    } else if open.last() > 1 {
        open.drop_last().push((open.last() - 1) as nat)
    } else {
        close(open.drop_last())
    }
}

/// The scan after its last node was finished.
pub open spec fn node_finished(scan: Scan, node: NodeModel) -> Step {
    let next = Scan {
        phase: Phase::Prefix,
        nodes: scan.nodes.push(node),
        open: close(scan.open),
        ..scan
    };
    if next.open.len() == 0 {
        Step::Done(next)
    } else {
        Step::More(next)
    }
}

/// The scan after the line of a node was finished.
pub open spec fn line_finished(limits: RespLimits, scan: Scan, kind: u8, text: Seq<u8>) -> Step {
    if kind == 43 {
        node_finished(scan, NodeModel::Simple(text))
    } else if kind == 45 {
        node_finished(scan, NodeModel::Error(text))
    } else if kind == 58 {
        match integer_value(text) {
            Err(reason) => Step::Fail(ProtocolError::Malformed(reason)),
            Ok(value) => node_finished(scan, NodeModel::Integer(value)),
        }
    } else if kind == 36 {
        match length_value(text) {
            Err(reason) => Step::Fail(ProtocolError::Malformed(reason)),
            Ok(None) => node_finished(scan, NodeModel::Bulk(None)),
            Ok(Some(length)) => if length > limits.max_bulk_bytes {
                Step::Fail(ProtocolError::LimitExceeded("max_bulk_bytes"))
            } else if scan.consumed + length + 2 > limits.max_frame_bytes {
                Step::Fail(ProtocolError::LimitExceeded("max_frame_bytes"))
            } else {
                Step::More(
                    Scan {
                        phase: Phase::Bulk { length, data: Seq::empty(), saw_cr: false },
                        ..scan
                    },
                )
            },
        }
    } else {
        match length_value(text) {
            Err(reason) => Step::Fail(ProtocolError::Malformed(reason)),
            Ok(None) => node_finished(scan, NodeModel::Array(None)),
            Ok(Some(length)) => if scan.started + scan.pending + length > limits.max_nodes {
                Step::Fail(ProtocolError::LimitExceeded("max_nodes"))
            } else if scan.consumed + 3 * (scan.pending + length) > limits.max_frame_bytes {
                Step::Fail(ProtocolError::LimitExceeded("max_frame_bytes"))
            } else if length > 0 {
                Step::More(
                    Scan {
                        phase: Phase::Prefix,
                        nodes: scan.nodes.push(NodeModel::Array(Some(length))),
                        open: scan.open.push(length),
                        pending: scan.pending + length,
                        ..scan
                    },
                )
            } else {
                node_finished(scan, NodeModel::Array(Some(0)))
            },
        }
    }
}

/// Whether the byte is the prefix of a RESP2 type.
pub open spec fn is_prefix(byte: u8) -> bool {
    byte == 43 || byte == 45 || byte == 58 || byte == 36 || byte == 42
}

/// What a byte does to a scan that is not doomed.
pub open spec fn step(limits: RespLimits, scan: Scan, byte: u8) -> Step {
    let consumed = scan.consumed + 1;
    match scan.phase {
        Phase::Prefix => if !is_prefix(byte) {
            Step::Fail(ProtocolError::Malformed("prefixo desconhecido"))
        } else if byte == 42 && scan.open.len() >= limits.max_depth {
            Step::Fail(ProtocolError::LimitExceeded("max_depth"))
        } else if scan.started + 1 > limits.max_nodes {
            Step::Fail(ProtocolError::LimitExceeded("max_nodes"))
        } else {
            Step::More(
                Scan {
                    phase: Phase::Line { kind: byte, text: Seq::empty(), saw_cr: false },
                    started: scan.started + 1,
                    pending: (scan.pending - 1) as nat,
                    consumed,
                    ..scan
                },
            )
        },
        Phase::Line { kind, text, saw_cr } => if saw_cr {
            if byte != 10 {
                Step::Fail(ProtocolError::Malformed("CR sem LF"))
            } else {
                line_finished(limits, Scan { consumed, ..scan }, kind, text)
            }
        } else if byte == 10 {
            Step::Fail(ProtocolError::Malformed("LF sem CR"))
        } else if byte == 13 {
            Step::More(Scan { phase: Phase::Line { kind, text, saw_cr: true }, consumed, ..scan })
        } else {
            Step::More(
                Scan {
                    phase: Phase::Line { kind, text: text.push(byte), saw_cr: false },
                    consumed,
                    ..scan
                },
            )
        },
        Phase::Bulk { length, data, saw_cr } => if data.len() < length {
            Step::More(
                Scan {
                    phase: Phase::Bulk { length, data: data.push(byte), saw_cr },
                    consumed,
                    ..scan
                },
            )
        } else if byte != (if saw_cr {
            10u8
        } else {
            13u8
        }) {
            Step::Fail(ProtocolError::Malformed("terminador bulk inválido"))
        } else if saw_cr {
            node_finished(Scan { consumed, ..scan }, NodeModel::Bulk(Some(data)))
        } else {
            Step::More(
                Scan { phase: Phase::Bulk { length, data, saw_cr: true }, consumed, ..scan },
            )
        },
    }
}

/// What a scan makes of the bytes that follow.
pub open spec fn run(limits: RespLimits, scan: Scan, input: Seq<u8>) -> Outcome
    decreases input.len(),
{
    match doomed(limits, scan) {
        Some(error) => Outcome::Failed(error),
        None => if input.len() == 0 {
            Outcome::Incomplete(scan)
        } else {
            match step(limits, scan, input[0]) {
                Step::Fail(error) => Outcome::Failed(error),
                Step::Done(last) => Outcome::Complete {
                    nodes: last.nodes,
                    consumed: last.consumed,
                },
                Step::More(next) => run(limits, next, input.skip(1)),
            }
        },
    }
}

/// What a buffer amounts to.
pub open spec fn decoded(limits: RespLimits, input: Seq<u8>) -> Outcome {
    run(limits, start(), input)
}

/// The frames that a run of nodes, read from `index` on, stands for.
pub open spec fn forest(nodes: Seq<NodeModel>, index: int) -> Seq<FrameModel>
    decreases nodes.len() - index,
{
    if index < 0 || index >= nodes.len() {
        Seq::empty()
    } else {
        let rest = forest(nodes, index + 1);
        match nodes[index] {
            NodeModel::Simple(text) => seq![FrameModel::Simple(text)] + rest,
            NodeModel::Error(text) => seq![FrameModel::Error(text)] + rest,
            NodeModel::Integer(value) => seq![FrameModel::Integer(value)] + rest,
            NodeModel::Bulk(data) => seq![FrameModel::Bulk(data)] + rest,
            NodeModel::Array(None) => seq![FrameModel::Array(None)] + rest,
            NodeModel::Array(Some(count)) => seq![FrameModel::Array(Some(rest.take(count as int)))]
                + rest.skip(count as int),
        }
    }
}

/// The frame whose lines these nodes are.
pub open spec fn assemble(nodes: Seq<NodeModel>) -> FrameModel {
    forest(nodes, 0)[0]
}

/// Values announced by a run of nodes that are not among them.
pub open spec fn room(nodes: Seq<NodeModel>) -> int {
    encoder::declared(nodes) - nodes.len()
}

/// Whether the nodes are exactly the lines of one frame.
pub open spec fn whole(nodes: Seq<NodeModel>) -> bool {
    &&& room(nodes) == 0
    &&& forall|k: int| 0 <= k < nodes.len() ==> room(#[trigger] nodes.take(k)) >= 1
}

/// Values that open arrays wait for beyond one each.
spec fn excess(open: Seq<nat>) -> int
    decreases open.len(),
{
    if open.len() == 0 {
        0
    } else {
        excess(open.drop_last()) + open.last() - 1
    }
}

spec fn vacancy(open: Seq<nat>, first: bool) -> int {
    if open.len() == 0 {
        if first {
            1
        } else {
            0
        }
    } else {
        1 + excess(open)
    }
}

/// What holds of every scan that a run of bytes leads to.
pub closed spec fn sound(limits: RespLimits, scan: Scan) -> bool {
    &&& forall|i: int| 0 <= i < scan.open.len() ==> #[trigger] scan.open[i] >= 1
    &&& forall|k: int|
        0 <= k < scan.nodes.len() ==> room(#[trigger] scan.nodes.take(k)) >= 1
    &&& room(scan.nodes) == vacancy(scan.open, scan.nodes.len() == 0)
    &&& room(scan.nodes) >= 1
    &&& scan.open.len() == 0 ==> scan.nodes.len() == 0
    &&& scan.started + scan.pending <= limits.max_nodes
    &&& match scan.phase {
        Phase::Prefix => scan.started == scan.nodes.len() && scan.pending == room(scan.nodes),
        Phase::Line { kind, .. } => scan.started == scan.nodes.len() + 1 && scan.pending + 1
            == room(scan.nodes) && is_prefix(kind) && (kind == 42 ==> scan.open.len()
            < limits.max_depth),
        Phase::Bulk { data, length, saw_cr } => scan.started == scan.nodes.len() + 1
            && scan.pending + 1 == room(scan.nodes) && data.len() <= length && (saw_cr
            ==> data.len() == length),
    }
}

proof fn lemma_excess(open: Seq<nat>)
    requires
        forall|i: int| 0 <= i < open.len() ==> #[trigger] open[i] >= 1,
    ensures
        excess(open) >= 0,
    decreases open.len(),
{
    if open.len() > 0 {
        assert(open[open.len() - 1] >= 1);
        lemma_excess(open.drop_last());
    }
}

proof fn lemma_close(open: Seq<nat>)
    requires
        forall|i: int| 0 <= i < open.len() ==> #[trigger] open[i] >= 1,
    ensures
        forall|i: int| 0 <= i < close(open).len() ==> #[trigger] close(open)[i] >= 1,
        close(open).len() <= open.len(),
        open.len() > 0 ==> vacancy(close(open), false) == excess(open),
    decreases open.len(),
{
    if open.len() > 0 {
        let below = open.drop_last();
        assert(open[open.len() - 1] >= 1);
        if open.last() > 1 {
            assert(close(open).drop_last() =~= below);
        } else {
            lemma_close(below);
            if below.len() == 0 {
                assert(close(below) == below);
                assert(excess(below) == 0);
            }
        }
    }
}

proof fn lemma_room_push(nodes: Seq<NodeModel>, node: NodeModel)
    ensures
        room(nodes.push(node)) == room(nodes) - 1 + match node {
            NodeModel::Array(Some(count)) => count as int,
            _ => 0,
        },
        forall|k: int| 0 <= k <= nodes.len() ==> #[trigger] nodes.push(node).take(k) == nodes.take(
            k,
        ),
        nodes.take(nodes.len() as int) == nodes,
{
    assert(nodes.push(node).drop_last() =~= nodes);
    assert forall|k: int| 0 <= k <= nodes.len() implies #[trigger] nodes.push(node).take(k)
        == nodes.take(k) by {
        assert(nodes.push(node).take(k) =~= nodes.take(k));
    }
    assert(nodes.take(nodes.len() as int) =~= nodes);
}

/// Finishing a node keeps a scan sound, or completes a whole frame.
proof fn lemma_node_finished(limits: RespLimits, scan: Scan, node: NodeModel)
    requires
        forall|i: int| 0 <= i < scan.open.len() ==> #[trigger] scan.open[i] >= 1,
        forall|k: int| 0 <= k < scan.nodes.len() ==> room(#[trigger] scan.nodes.take(k)) >= 1,
        room(scan.nodes) == vacancy(scan.open, scan.nodes.len() == 0),
        room(scan.nodes) >= 1,
        scan.open.len() == 0 ==> scan.nodes.len() == 0,
        scan.started + scan.pending <= limits.max_nodes,
        scan.started == scan.nodes.len() + 1,
        scan.pending + 1 == room(scan.nodes),
        node is Array ==> node->Array_0 is None || node->Array_0 == Some(0nat),
    ensures
        match node_finished(scan, node) {
            Step::More(next) => sound(limits, next),
            Step::Done(last) => whole(last.nodes),
            Step::Fail(_) => false,
        },
{
    lemma_close(scan.open);
    lemma_excess(close(scan.open));
    lemma_room_push(scan.nodes, node);
    let grown = scan.nodes.push(node);
    assert forall|k: int| 0 <= k < grown.len() implies room(#[trigger] grown.take(k)) >= 1 by {
        if k < scan.nodes.len() {
            assert(grown.take(k) == scan.nodes.take(k));
        }
    }
}

/// Every step keeps a scan sound, or completes a whole frame.
pub proof fn lemma_step_sound(limits: RespLimits, scan: Scan, byte: u8)
    requires
        sound(limits, scan),
    ensures
        match step(limits, scan, byte) {
            Step::More(next) => sound(limits, next),
            Step::Done(last) => whole(last.nodes),
            Step::Fail(_) => true,
        },
{
    let moved = Scan { consumed: scan.consumed + 1, ..scan };
    match scan.phase {
        Phase::Prefix => {},
        Phase::Line { kind, text, saw_cr } => {
            if saw_cr && byte == 10 {
                if kind == 43 {
                    lemma_node_finished(limits, moved, NodeModel::Simple(text));
                } else if kind == 45 {
                    lemma_node_finished(limits, moved, NodeModel::Error(text));
                } else if kind == 58 {
                    if let Ok(value) = integer_value(text) {
                        lemma_node_finished(limits, moved, NodeModel::Integer(value));
                    }
                } else if kind == 36 {
                    lemma_node_finished(limits, moved, NodeModel::Bulk(None));
                } else {
                    lemma_node_finished(limits, moved, NodeModel::Array(None));
                    lemma_node_finished(limits, moved, NodeModel::Array(Some(0)));
                    if let Ok(Some(length)) = length_value(text) {
                        let node = NodeModel::Array(Some(length));
                        lemma_room_push(scan.nodes, node);
                        let grown = scan.nodes.push(node);
                        assert forall|k: int| 0 <= k < grown.len() implies room(
                            #[trigger] grown.take(k),
                        ) >= 1 by {
                            if k < scan.nodes.len() {
                                assert(grown.take(k) == scan.nodes.take(k));
                            }
                        }
                        assert(scan.open.push(length).drop_last() =~= scan.open);
                        lemma_excess(scan.open);
                    }
                }
            }
        },
        Phase::Bulk { length, data, saw_cr } => {
            if data.len() >= length && saw_cr && byte == 10 {
                lemma_node_finished(limits, moved, NodeModel::Bulk(Some(data)));
            }
        },
    }
}

/// What a sound scan counts.
pub proof fn lemma_sound_counts(limits: RespLimits, scan: Scan)
    requires
        sound(limits, scan),
    ensures
        scan.started + scan.pending <= limits.max_nodes,
        match scan.phase {
            Phase::Prefix => true,
            Phase::Line { kind, .. } => scan.started == scan.nodes.len() + 1 && scan.pending + 1
                == room(scan.nodes) && (kind == 42 ==> scan.open.len() < limits.max_depth)
                && is_prefix(kind),
            Phase::Bulk { data, length, saw_cr } => scan.started == scan.nodes.len() + 1
                && data.len() <= length && (saw_cr ==> data.len() == length),
        },
{
}

/// The scan before the first byte is sound.
pub proof fn lemma_start_sound(limits: RespLimits)
    requires
        limits.max_nodes >= 1,
    ensures
        sound(limits, start()),
{
}

/// Reading on from where a prefix left the scan is reading the whole.
pub proof fn lemma_run_extend(
    limits: RespLimits,
    scan: Scan,
    prefix: Seq<u8>,
    suffix: Seq<u8>,
)
    ensures
        match run(limits, scan, prefix) {
            Outcome::Incomplete(next) => run(limits, scan, prefix + suffix) == run(
                limits,
                next,
                suffix,
            ),
            other => run(limits, scan, prefix + suffix) == other,
        },
    decreases prefix.len(),
{
    if doomed(limits, scan) is None {
        if prefix.len() == 0 {
            assert(prefix + suffix =~= suffix);
        } else {
            assert((prefix + suffix).skip(1) =~= prefix.skip(1) + suffix);
            if let Step::More(next) = step(limits, scan, prefix[0]) {
                lemma_run_extend(limits, next, prefix.skip(1), suffix);
            }
        }
    }
}

/// Payload bytes can be skipped without looking at them.
proof fn lemma_bulk_skip(limits: RespLimits, scan: Scan, input: Seq<u8>, count: int)
    requires
        scan.phase matches Phase::Bulk { length, data, saw_cr } && data.len() + count <= length,
        0 <= count <= input.len(),
    ensures
        run(limits, scan, input) == run(
            limits,
            Scan {
                phase: Phase::Bulk {
                    length: scan.phase->Bulk_length,
                    data: scan.phase->data + input.take(count),
                    saw_cr: scan.phase->Bulk_saw_cr,
                },
                consumed: scan.consumed + count as nat,
                ..scan
            },
            input.skip(count),
        ),
    decreases count,
{
    let data = scan.phase->data;
    if count == 0 {
        assert(data + input.take(0) =~= data);
        assert(input.skip(0) =~= input);
    } else {
        let next = Scan {
            phase: Phase::Bulk {
                length: scan.phase->Bulk_length,
                data: data.push(input[0]),
                saw_cr: scan.phase->Bulk_saw_cr,
            },
            consumed: scan.consumed + 1,
            ..scan
        };
        assert(step(limits, scan, input[0]) == Step::More(next));
        lemma_bulk_skip(limits, next, input.skip(1), count - 1);
        assert(data.push(input[0]) + input.skip(1).take(count - 1) =~= data + input.take(count));
        assert(input.skip(1).skip(count - 1) =~= input.skip(count));
    }
}

/// A whole run of nodes stands for as many frames, from each node on, as the
/// nodes before it have announced.
pub proof fn lemma_forest(nodes: Seq<NodeModel>, index: int)
    requires
        whole(nodes),
        0 <= index <= nodes.len(),
    ensures
        forest(nodes, index).len() == room(nodes.take(index)),
        index < nodes.len() ==> match nodes[index] {
            NodeModel::Array(Some(count)) => count <= forest(nodes, index + 1).len(),
            _ => true,
        },
    decreases nodes.len() - index,
{
    if index < nodes.len() {
        lemma_forest(nodes, index + 1);
        assert(nodes.take(index + 1) =~= nodes.take(index).push(nodes[index]));
        lemma_room_push(nodes.take(index), nodes[index]);
    } else {
        assert(nodes.take(index) =~= nodes);
    }
}

#[derive(Clone, Copy, Debug)]
struct Payload {
    start: usize,
    end: usize,
}

#[derive(Clone, Copy, Debug)]
enum Node {
    Simple(Payload),
    Error(Payload),
    Integer(i64),
    Bulk(Option<Payload>),
    Array(Option<usize>),
}

#[derive(Clone, Copy, Debug)]
struct Line {
    kind: u8,
    start: usize,
    payload_start: usize,
    saw_cr: bool,
}

#[derive(Clone, Copy, Debug)]
enum State {
    Prefix,
    Line(Line),
    Bulk { payload: Payload, saw_cr: bool },
}

/// What one pass over the buffer came to.
enum Progress {
    Starved,
    Moved,
    Finished,
}

impl Payload {
    spec fn holds(self, input: Seq<u8>, cursor: int, text: Seq<u8>) -> bool {
        &&& self.start <= self.end <= cursor <= input.len()
        &&& text == input.subrange(self.start as int, self.end as int)
    }
}

impl Node {
    spec fn stands_for(self, input: Seq<u8>, cursor: int, model: NodeModel) -> bool {
        match (self, model) {
            (Node::Simple(payload), NodeModel::Simple(text)) => payload.holds(input, cursor, text),
            (Node::Error(payload), NodeModel::Error(text)) => payload.holds(input, cursor, text),
            (Node::Integer(value), NodeModel::Integer(number)) => value == number,
            (Node::Bulk(None), NodeModel::Bulk(None)) => true,
            (Node::Bulk(Some(payload)), NodeModel::Bulk(Some(text))) => payload.holds(
                input,
                cursor,
                text,
            ),
            (Node::Array(None), NodeModel::Array(None)) => true,
            (Node::Array(Some(length)), NodeModel::Array(Some(count))) => length == count,
            _ => false,
        }
    }
}

/// RESP2 decoder that belongs to a single connection.
///
/// While [`Self::decode`] returns `Ok(None)`, the caller may only append bytes to
/// the same content. A shorter buffer is detected; bytes already supplied are
/// not looked at again.
///
/// The scan keeps cursor, stack and metadata between calls. No payload is copied
/// before the whole frame was validated. On an error the buffer stays as it is
/// and the decoder is ended for good; discard the connection too.
pub struct Decoder {
    limits: RespLimits,
    cursor: usize,
    previous_len: usize,
    state: State,
    nodes: Vec<Node>,
    arrays: Vec<usize>,
    nodes_started: usize,
    pending_nodes: usize,
    poisoned: bool,
    fed: Ghost<Seq<u8>>,
}

impl Decoder {
    /// The limits that every frame has to keep.
    pub closed spec fn limits(&self) -> RespLimits {
        self.limits
    }

    /// The incomplete frame that the last call saw.
    pub closed spec fn fed(&self) -> Seq<u8> {
        self.fed@
    }

    /// Whether an error has ended the decoder.
    pub closed spec fn poisoned(&self) -> bool {
        self.poisoned
    }

    /// The bookkeeping agrees with the bytes seen so far.
    pub closed spec fn wf(&self) -> bool {
        &&& limits::limits_fault(self.limits) is None
        &&& !self.poisoned ==> {
            &&& self.fed@.len() == self.cursor
            &&& self.previous_len == self.cursor
            &&& decoded(self.limits, self.fed@) matches Outcome::Incomplete(scan)
                && self.linked(self.fed@, scan) && sound(self.limits, scan)
        }
        &&& self.poisoned ==> self.nodes@.len() == 0 && self.arrays@.len() == 0
    }

    spec fn linked_body(&self, input: Seq<u8>, scan: Scan) -> bool {
        &&& self.cursor == scan.consumed
        &&& self.cursor <= input.len()
        &&& self.nodes@.len() == scan.nodes.len()
        &&& forall|i: int|
            0 <= i < scan.nodes.len() ==> (#[trigger] self.nodes@[i]).stands_for(
                input,
                self.cursor as int,
                scan.nodes[i],
            )
        &&& self.arrays@.len() == scan.open.len()
        &&& forall|i: int| 0 <= i < scan.open.len() ==> #[trigger] self.arrays@[i] == scan.open[i]
        &&& self.nodes_started == scan.started
        &&& self.pending_nodes == scan.pending
    }

    spec fn linked(&self, input: Seq<u8>, scan: Scan) -> bool {
        &&& self.linked_body(input, scan)
        &&& match (self.state, scan.phase) {
            (State::Prefix, Phase::Prefix) => true,
            (State::Line(line), Phase::Line { kind, text, saw_cr }) => {
                &&& line.kind == kind
                &&& line.saw_cr == saw_cr
                &&& line.payload_start == line.start + 1
                &&& line.payload_start + text.len() + (if saw_cr {
                    1int
                } else {
                    0int
                }) == self.cursor
                &&& text == input.subrange(
                    line.payload_start as int,
                    line.payload_start + text.len(),
                )
            },
            (State::Bulk { payload, saw_cr: seen }, Phase::Bulk { length, data, saw_cr }) => {
                &&& seen == saw_cr
                &&& payload.end == payload.start + length
                &&& payload.start + data.len() + (if saw_cr {
                    1int
                } else {
                    0int
                }) == self.cursor
                &&& data == input.subrange(payload.start as int, payload.start + data.len())
            },
            _ => false,
        }
    }

    /// Creates an empty scan after validating all limits.
    pub fn new(limits: RespLimits) -> (result: Result<Self, ConfigError>)
        ensures
            match limits::limits_fault(limits) {
                Some(reason) => result == Err::<Self, ConfigError>(
                    ConfigError::InvalidRespLimits { reason },
                ),
                None => result matches Ok(decoder) && decoder.wf() && decoder.limits() == limits
                    && decoder.fed() == Seq::<u8>::empty() && !decoder.poisoned(),
            },
    {
        match limits.validate() {
            Err(error) => return Err(error),
            Ok(_) => {},
        }
        Ok(
            Decoder {
                limits,
                cursor: 0,
                previous_len: 0,
                state: State::Prefix,
                nodes: Vec::new(),
                arrays: Vec::new(),
                nodes_started: 0,
                pending_nodes: 1,
                poisoned: false,
                fed: Ghost(Seq::empty()),
            },
        )
    }

    /// How many finished nodes and how many open arrays are held as metadata.
    pub fn metadata(&self) -> (result: (usize, usize))
        requires
            self.wf(),
        ensures
            self.poisoned() ==> result == (0usize, 0usize),
            !self.poisoned() ==> (decoded(self.limits(), self.fed()) matches Outcome::Incomplete(
                scan,
            ) && result.0 == scan.nodes.len() && result.1 == scan.open.len()),
    {
        (self.nodes.len(), self.arrays.len())
    }

    /// Consumes exactly one complete frame, preserving the bytes behind it.
    ///
    /// `Ok(None)` and `Err` never alter `src`. A failure is terminal, also when it
    /// comes from an undue reduction of an incomplete buffer.
    pub fn decode(&mut self, src: &mut BytesMut) -> (result: Result<Option<Frame>, ProtocolError>)
        requires
            old(self).wf(),
            !old(self).poisoned() && buffer::buffer_content(*old(src)).len() >= old(self).fed().len()
                ==> old(self).fed().is_prefix_of(buffer::buffer_content(*old(src))),
        ensures
            final(self).wf(),
            final(self).limits() == old(self).limits(),
            old(self).poisoned() ==> result == Err::<Option<Frame>, ProtocolError>(
                ProtocolError::Poisoned,
            ) && *final(self) == *old(self) && *final(src) == *old(src),
            !old(self).poisoned() && buffer::buffer_content(*old(src)).len() < old(self).fed().len() ==> {
                &&& result == Err::<Option<Frame>, ProtocolError>(ProtocolError::BufferChanged)
                &&& final(self).poisoned()
                &&& *final(src) == *old(src)
            },
            !old(self).poisoned() && buffer::buffer_content(*old(src)).len() >= old(self).fed().len()
                ==> match decoded(old(self).limits(), buffer::buffer_content(*old(src))) {
                Outcome::Incomplete(_) => {
                    &&& result == Ok::<Option<Frame>, ProtocolError>(None)
                    &&& !final(self).poisoned()
                    &&& final(self).fed() == buffer::buffer_content(*old(src))
                    &&& *final(src) == *old(src)
                },
                Outcome::Failed(error) => {
                    &&& result == Err::<Option<Frame>, ProtocolError>(error)
                    &&& final(self).poisoned()
                    &&& *final(src) == *old(src)
                },
                Outcome::Complete { nodes, consumed } => {
                    &&& result matches Ok(Some(frame)) && frame.model() == assemble(nodes)
                    &&& !final(self).poisoned()
                    &&& final(self).fed() == Seq::<u8>::empty()
                    &&& consumed <= buffer::buffer_content(*old(src)).len()
                    &&& buffer::buffer_content(*final(src)) == buffer::buffer_content(*old(src)).skip(
                        consumed as int,
                    )
                },
            },
    {
        if self.poisoned {
            return Err(ProtocolError::Poisoned);
        }
        let available: usize = buffer_slice(src).len();
        if available < self.previous_len {
            return self.fail(ProtocolError::BufferChanged);
        }
        self.previous_len = available;
        let input = buffer_slice(src);
        let ghost scan = decoded(self.limits, self.fed@)->Incomplete_0;
        let ghost seen = self.fed@;
        proof {
            assert(input@.take(seen.len() as int) =~= seen);
            assert(seen + input@.skip(seen.len() as int) =~= input@);
            lemma_run_extend(self.limits, start(), seen, input@.skip(seen.len() as int));
            self.lemma_linked_grows(seen, input@, scan);
        }
        match self.scan(input, Ghost(scan)) {
            Ok(false) => {
                self.fed = Ghost(input@);
                Ok(None)
            },
            Ok(true) => {
                let ghost nodes = decoded(self.limits, input@)->nodes;
                let frame = self.materialize(input, Ghost(nodes));
                buffer_advance(src, self.cursor);
                self.cursor = 0;
                self.previous_len = 0;
                self.state = State::Prefix;
                self.nodes.clear();
                self.arrays.clear();
                self.nodes_started = 0;
                self.pending_nodes = 1;
                self.fed = Ghost(Seq::empty());
                Ok(Some(frame))
            },
            Err(error) => self.fail(error),
        }
    }

    proof fn lemma_linked_grows(&self, seen: Seq<u8>, input: Seq<u8>, scan: Scan)
        requires
            self.linked(seen, scan),
            seen.is_prefix_of(input),
        ensures
            self.linked(input, scan),
    {
        assert forall|a: int, b: int| 0 <= a <= b <= seen.len() implies #[trigger] seen.subrange(
            a,
            b,
        ) == input.subrange(a, b) by {
            assert(seen.subrange(a, b) =~= input.subrange(a, b));
        }
        assert forall|i: int| 0 <= i < scan.nodes.len() implies (
        #[trigger] self.nodes@[i]).stands_for(input, self.cursor as int, scan.nodes[i]) by {
            assert(self.nodes@[i].stands_for(seen, self.cursor as int, scan.nodes[i]));
        }
    }

    fn fail<T>(&mut self, error: ProtocolError) -> (result: Result<T, ProtocolError>)
        requires
            limits::limits_fault(old(self).limits) is None,
        ensures
            result == Err::<T, ProtocolError>(error),
            final(self).wf(),
            final(self).poisoned,
            final(self).limits == old(self).limits,
    {
        self.poisoned = true;
        self.nodes.clear();
        self.arrays.clear();
        Err(error)
    }

    fn scan(&mut self, input: &[u8], Ghost(from): Ghost<Scan>) -> (result: Result<
        bool,
        ProtocolError,
    >)
        requires
            old(self).linked(input@, from),
            sound(old(self).limits, from),
            limits::limits_fault(old(self).limits) is None,
            decoded(old(self).limits, input@) == run(
                old(self).limits,
                from,
                input@.skip(old(self).cursor as int),
            ),
        ensures
            final(self).limits == old(self).limits,
            final(self).fed == old(self).fed,
            final(self).poisoned == old(self).poisoned,
            final(self).previous_len == old(self).previous_len,
            match decoded(old(self).limits, input@) {
                Outcome::Failed(error) => result == Err::<bool, ProtocolError>(error),
                Outcome::Incomplete(scan) => {
                    &&& result == Ok::<bool, ProtocolError>(false)
                    &&& final(self).linked(input@, scan)
                    &&& sound(old(self).limits, scan)
                    &&& final(self).cursor == input@.len()
                },
                Outcome::Complete { nodes, consumed } => {
                    &&& result == Ok::<bool, ProtocolError>(true)
                    &&& whole(nodes)
                    &&& final(self).cursor == consumed
                    &&& consumed <= input@.len()
                    &&& final(self).nodes@.len() == nodes.len()
                    &&& forall|i: int|
                        0 <= i < nodes.len() ==> (#[trigger] final(self).nodes@[i]).stands_for(
                            input@,
                            consumed as int,
                            nodes[i],
                        )
                },
            },
    {
        let ghost mut scan = from;
        let ghost limits = self.limits;
        loop
            invariant
                self.limits == limits,
                self.limits == old(self).limits,
                self.fed == old(self).fed,
                self.poisoned == old(self).poisoned,
                self.previous_len == old(self).previous_len,
                limits::limits_fault(limits) is None,
                self.linked(input@, scan),
                sound(limits, scan),
                decoded(limits, input@) == run(limits, scan, input@.skip(self.cursor as int)),
            decreases input@.len() - self.cursor,
        {
            let ghost rest = input@.skip(self.cursor as int);
            if let State::Bulk { payload, saw_cr } = self.state {
                if self.cursor < payload.end && self.cursor < input.len() {
                    let target: usize = if input.len() < payload.end {
                        input.len()
                    } else {
                        payload.end
                    };
                    proof {
                        let count = target - self.cursor;
                        lemma_bulk_skip(limits, scan, rest, count);
                        assert(rest.skip(count) =~= input@.skip(target as int));
                        assert(scan.phase->data + rest.take(count) =~= input@.subrange(
                            payload.start as int,
                            target as int,
                        ));
                        scan = Scan {
                            phase: Phase::Bulk {
                                length: scan.phase->Bulk_length,
                                data: scan.phase->data + rest.take(count),
                                saw_cr: scan.phase->Bulk_saw_cr,
                            },
                            consumed: scan.consumed + count as nat,
                            ..scan
                        };
                    }
                    let ghost before = *self;
                    self.cursor = target;
                    proof {
                        before.lemma_nodes_kept(self, input@, scan.nodes);
                    }
                    continue ;
                }
            }
            let outcome = match self.state {
                State::Prefix => self.prefix_step(input, Ghost(scan)),
                State::Line(line) => self.line_step(input, line, Ghost(scan)),
                State::Bulk { payload, saw_cr } => self.bulk_step(
                    input,
                    payload,
                    saw_cr,
                    Ghost(scan),
                ),
            };
            proof {
                if rest.len() > 0 {
                    lemma_step_sound(limits, scan, rest[0]);
                    assert(rest.skip(1) =~= input@.skip(scan.consumed as int + 1));
                }
            }
            match outcome {
                Err(error) => {
                    return Err(error);
                },
                Ok(Progress::Starved) => {
                    return Ok(false);
                },
                Ok(Progress::Finished) => {
                    return Ok(true);
                },
                Ok(Progress::Moved) => {
                    proof {
                        scan = step(limits, scan, rest[0])->More_0;
                    }
                },
            }
        }
    }

    proof fn lemma_nodes_kept(&self, later: &Decoder, input: Seq<u8>, nodes: Seq<NodeModel>)
        requires
            self.cursor <= later.cursor <= input.len(),
            self.nodes@ == later.nodes@,
            self.nodes@.len() == nodes.len(),
            forall|i: int|
                0 <= i < nodes.len() ==> (#[trigger] self.nodes@[i]).stands_for(
                    input,
                    self.cursor as int,
                    nodes[i],
                ),
        ensures
            forall|i: int|
                0 <= i < nodes.len() ==> (#[trigger] later.nodes@[i]).stands_for(
                    input,
                    later.cursor as int,
                    nodes[i],
                ),
    {
        assert forall|i: int| 0 <= i < nodes.len() implies (
        #[trigger] later.nodes@[i]).stands_for(input, later.cursor as int, nodes[i]) by {
            assert(self.nodes@[i].stands_for(input, self.cursor as int, nodes[i]));
        }
    }

    /// What a single pass has to do for the scan that the decoder stands at.
    spec fn passed(
        &self,
        before: &Decoder,
        input: Seq<u8>,
        scan: Scan,
        result: Result<Progress, ProtocolError>,
    ) -> bool {
        &&& self.limits == before.limits
        &&& self.fed == before.fed
        &&& self.poisoned == before.poisoned
        &&& self.previous_len == before.previous_len
        &&& match doomed(before.limits, scan) {
            Some(error) => result == Err::<Progress, ProtocolError>(error),
            None => if before.cursor == input.len() {
                result == Ok::<Progress, ProtocolError>(Progress::Starved) && *self == *before
            } else {
                match step(before.limits, scan, input[before.cursor as int]) {
                    Step::Fail(error) => result == Err::<Progress, ProtocolError>(error),
                    Step::More(next) => result == Ok::<Progress, ProtocolError>(Progress::Moved)
                        && self.linked(input, next),
                    Step::Done(last) => result == Ok::<Progress, ProtocolError>(Progress::Finished)
                        && self.linked_body(input, last),
                }
            },
        }
    }

    fn prefix_step(&mut self, input: &[u8], Ghost(scan): Ghost<Scan>) -> (result: Result<
        Progress,
        ProtocolError,
    >)
        requires
            old(self).linked(input@, scan),
            sound(old(self).limits, scan),
            old(self).state is Prefix,
        ensures
            final(self).passed(old(self), input@, scan, result),
    {
        if self.nodes_started > 0 {
            match self.require_frame_end(self.cursor, 3) {
                Err(error) => return Err(error),
                Ok(_) => {},
            }
        }
        if self.cursor >= input.len() {
            return Ok(Progress::Starved);
        }
        let kind: u8 = input[self.cursor];
        if kind != 43 && kind != 45 && kind != 58 && kind != 36 && kind != 42 {
            return Err(ProtocolError::Malformed("prefixo desconhecido"));
        }
        if kind == 42 && self.arrays.len() >= self.limits.max_depth {
            return Err(ProtocolError::LimitExceeded("max_depth"));
        }
        if self.nodes_started >= self.limits.max_nodes {
            return Err(ProtocolError::LimitExceeded("max_nodes"));
        }
        let ghost before = *self;
        self.nodes_started += 1;
        self.pending_nodes -= 1;
        let start: usize = self.cursor;
        self.cursor += 1;
        self.state = State::Line(Line { kind, start, payload_start: self.cursor, saw_cr: false });
        proof {
            before.lemma_nodes_kept(self, input@, scan.nodes);
            assert(input@.subrange(self.cursor as int, self.cursor as int) =~= Seq::<u8>::empty());
        }
        Ok(Progress::Moved)
    }

    fn line_step(&mut self, input: &[u8], line: Line, Ghost(scan): Ghost<Scan>) -> (result: Result<
        Progress,
        ProtocolError,
    >)
        requires
            old(self).linked(input@, scan),
            sound(old(self).limits, scan),
            old(self).state == State::Line(line),
        ensures
            final(self).passed(old(self), input@, scan, result),
    {
        // Even without available bytes, a line that no longer has room for its
        // terminator cannot become part of a valid frame.
        let missing: usize = if line.saw_cr {
            1
        } else {
            2
        };
        match self.require_frame_end(self.cursor, missing) {
            Err(error) => return Err(error),
            Ok(_) => {},
        }
        let line_len: usize = self.cursor + missing - line.start;
        if line_len > self.limits.max_line_bytes {
            return Err(ProtocolError::LimitExceeded("max_line_bytes"));
        }
        if self.cursor >= input.len() {
            return Ok(Progress::Starved);
        }
        let byte: u8 = input[self.cursor];
        let ghost before = *self;
        let ghost text = scan.phase->text;
        if line.saw_cr {
            if byte != 10 {
                return Err(ProtocolError::Malformed("CR sem LF"));
            }
            self.cursor += 1;
            let payload = Payload { start: line.payload_start, end: self.cursor - 2 };
            proof {
                before.lemma_nodes_kept(self, input@, scan.nodes);
            }
            return self.finish_line(
                input,
                line.kind,
                payload,
                Ghost(Scan { consumed: scan.consumed + 1, ..scan }),
            );
        }
        if byte == 10 {
            return Err(ProtocolError::Malformed("LF sem CR"));
        }
        self.cursor += 1;
        self.state = State::Line(Line { saw_cr: byte == 13, ..line });
        proof {
            before.lemma_nodes_kept(self, input@, scan.nodes);
            if byte != 13 {
                assert(text.push(byte) =~= input@.subrange(
                    line.payload_start as int,
                    line.payload_start + text.len() + 1,
                ));
            }
        }
        Ok(Progress::Moved)
    }

    fn bulk_step(
        &mut self,
        input: &[u8],
        payload: Payload,
        saw_cr: bool,
        Ghost(scan): Ghost<Scan>,
    ) -> (result: Result<Progress, ProtocolError>)
        requires
            old(self).linked(input@, scan),
            sound(old(self).limits, scan),
            old(self).state == (State::Bulk { payload, saw_cr }),
            old(self).cursor < payload.end ==> old(self).cursor == input@.len(),
        ensures
            final(self).passed(old(self), input@, scan, result),
    {
        if self.cursor >= input.len() {
            return Ok(Progress::Starved);
        }
        let byte: u8 = input[self.cursor];
        let ghost before = *self;
        if saw_cr {
            if byte != 10 {
                return Err(ProtocolError::Malformed("terminador bulk inválido"));
            }
            self.cursor += 1;
            proof {
                before.lemma_nodes_kept(self, input@, scan.nodes);
            }
            let ghost data = scan.phase->data;
            return Ok(
                self.finish_node(
                    input,
                    Node::Bulk(Some(payload)),
                    Ghost(Scan { consumed: scan.consumed + 1, ..scan }),
                    Ghost(NodeModel::Bulk(Some(data))),
                ),
            );
        }
        if byte != 13 {
            return Err(ProtocolError::Malformed("terminador bulk inválido"));
        }
        self.cursor += 1;
        self.state = State::Bulk { payload, saw_cr: true };
        proof {
            before.lemma_nodes_kept(self, input@, scan.nodes);
        }
        Ok(Progress::Moved)
    }

    fn finish_line(
        &mut self,
        input: &[u8],
        kind: u8,
        payload: Payload,
        Ghost(scan): Ghost<Scan>,
    ) -> (result: Result<Progress, ProtocolError>)
        requires
            old(self).linked_body(input@, scan),
            scan.phase matches Phase::Line { kind: known, text, .. } && known == kind
                && payload.holds(input@, scan.consumed as int, text),
            is_prefix(kind),
            forall|i: int| 0 <= i < scan.open.len() ==> #[trigger] scan.open[i] >= 1,
            scan.started + scan.pending <= old(self).limits.max_nodes,
        ensures
            final(self).limits == old(self).limits,
            final(self).fed == old(self).fed,
            final(self).poisoned == old(self).poisoned,
            final(self).previous_len == old(self).previous_len,
            match line_finished(old(self).limits, scan, kind, scan.phase->text) {
                Step::Fail(error) => result == Err::<Progress, ProtocolError>(error),
                Step::More(next) => result == Ok::<Progress, ProtocolError>(Progress::Moved)
                    && final(self).linked(input@, next),
                Step::Done(last) => result == Ok::<Progress, ProtocolError>(Progress::Finished)
                    && final(self).linked_body(input@, last),
            },
    {
        let ghost text = scan.phase->text;
        if kind == 43 {
            return Ok(
                self.finish_node(
                    input,
                    Node::Simple(payload),
                    Ghost(scan),
                    Ghost(NodeModel::Simple(text)),
                ),
            );
        }
        if kind == 45 {
            return Ok(
                self.finish_node(
                    input,
                    Node::Error(payload),
                    Ghost(scan),
                    Ghost(NodeModel::Error(text)),
                ),
            );
        }
        let bytes = slice_subrange(input, payload.start, payload.end);
        if kind == 58 {
            return match parse_integer(bytes) {
                Err(error) => Err(error),
                Ok(value) => Ok(
                    self.finish_node(
                        input,
                        Node::Integer(value),
                        Ghost(scan),
                        Ghost(NodeModel::Integer(value)),
                    ),
                ),
            };
        }
        let announced: Option<usize> = match parse_length(bytes) {
            Err(error) => return Err(error),
            Ok(announced) => announced,
        };
        if kind == 36 {
            let length: usize = match announced {
                None => return Ok(
                    self.finish_node(
                        input,
                        Node::Bulk(None),
                        Ghost(scan),
                        Ghost(NodeModel::Bulk(None)),
                    ),
                ),
                Some(length) => length,
            };
            if length > self.limits.max_bulk_bytes {
                return Err(ProtocolError::LimitExceeded("max_bulk_bytes"));
            }
            let end: usize = match self.cursor.checked_add(length) {
                None => return Err(ProtocolError::LimitExceeded("max_frame_bytes")),
                Some(end) => end,
            };
            match self.require_frame_end(end, 2) {
                Err(error) => return Err(error),
                Ok(_) => {},
            }
            self.state = State::Bulk {
                payload: Payload { start: self.cursor, end },
                saw_cr: false,
            };
            assert(input@.subrange(self.cursor as int, self.cursor as int) =~= Seq::<u8>::empty());
            return Ok(Progress::Moved);
        }
        let length: usize = match announced {
            None => return Ok(
                self.finish_node(
                    input,
                    Node::Array(None),
                    Ghost(scan),
                    Ghost(NodeModel::Array(None)),
                ),
            ),
            Some(length) => length,
        };
        let pending: usize = match self.pending_nodes.checked_add(length) {
            None => return Err(ProtocolError::LimitExceeded("max_nodes")),
            Some(pending) => pending,
        };
        match self.nodes_started.checked_add(pending) {
            None => return Err(ProtocolError::LimitExceeded("max_nodes")),
            Some(known) => {
                if known > self.limits.max_nodes {
                    return Err(ProtocolError::LimitExceeded("max_nodes"));
                }
            },
        }
        // Each future node needs at least "+\r\n". Nothing is reserved for the
        // announced length.
        let minimum: usize = match pending.checked_mul(3) {
            None => return Err(ProtocolError::LimitExceeded("max_frame_bytes")),
            Some(minimum) => minimum,
        };
        match self.require_frame_end(self.cursor, minimum) {
            Err(error) => return Err(error),
            Ok(_) => {},
        }
        if length == 0 {
            return Ok(
                self.finish_node(
                    input,
                    Node::Array(Some(0)),
                    Ghost(scan),
                    Ghost(NodeModel::Array(Some(0))),
                ),
            );
        }
        self.pending_nodes = pending;
        self.nodes.push(Node::Array(Some(length)));
        self.arrays.push(length);
        self.state = State::Prefix;
        Ok(Progress::Moved)
    }

    /// Records a finished node, and the arrays that it was the last value of.
    fn finish_node(
        &mut self,
        input: &[u8],
        node: Node,
        Ghost(scan): Ghost<Scan>,
        Ghost(model): Ghost<NodeModel>,
    ) -> (progress: Progress)
        requires
            old(self).linked_body(input@, scan),
            node.stands_for(input@, scan.consumed as int, model),
            forall|i: int| 0 <= i < scan.open.len() ==> #[trigger] scan.open[i] >= 1,
        ensures
            final(self).limits == old(self).limits,
            final(self).fed == old(self).fed,
            final(self).poisoned == old(self).poisoned,
            final(self).previous_len == old(self).previous_len,
            match node_finished(scan, model) {
                Step::Fail(_) => false,
                Step::More(next) => progress is Moved && final(self).linked(input@, next),
                Step::Done(last) => progress is Finished && final(self).linked_body(input@, last),
            },
    {
        self.nodes.push(node);
        self.state = State::Prefix;
        let ghost mut open = scan.open;
        while self.arrays.len() > 0
            invariant
                close(open) == close(scan.open),
                self.arrays@.len() == open.len(),
                forall|i: int| 0 <= i < open.len() ==> #[trigger] self.arrays@[i] == open[i],
                forall|i: int| 0 <= i < open.len() ==> #[trigger] open[i] >= 1,
                self.nodes@ == old(self).nodes@.push(node),
                self.state is Prefix,
                self.cursor == old(self).cursor,
                self.nodes_started == old(self).nodes_started,
                self.pending_nodes == old(self).pending_nodes,
                self.limits == old(self).limits,
                self.fed == old(self).fed,
                self.poisoned == old(self).poisoned,
                self.previous_len == old(self).previous_len,
                old(self).linked_body(input@, scan),
                node.stands_for(input@, scan.consumed as int, model),
            decreases self.arrays@.len(),
        {
            let last: usize = self.arrays.len() - 1;
            let remaining: usize = self.arrays[last];
            assert(remaining == open[last as int]);
            if remaining > 1 {
                self.arrays.set(last, remaining - 1);
                return Progress::Moved;
            }
            self.arrays.pop();
            proof {
                open = open.drop_last();
            }
        }
        Progress::Finished
    }

    fn require_frame_end(&self, base: usize, more: usize) -> (result: Result<(), ProtocolError>)
        ensures
            result == if base + more > self.limits.max_frame_bytes {
                Err::<(), ProtocolError>(ProtocolError::LimitExceeded("max_frame_bytes"))
            } else {
                Ok::<(), ProtocolError>(())
            },
    {
        match base.checked_add(more) {
            None => Err(ProtocolError::LimitExceeded("max_frame_bytes")),
            Some(end) => if end > self.limits.max_frame_bytes {
                Err(ProtocolError::LimitExceeded("max_frame_bytes"))
            } else {
                Ok(())
            },
        }
    }

    /// Builds the frame from its nodes, the last one first, so that the values
    /// of an array are at hand when its own node comes up.
    fn materialize(&self, input: &[u8], Ghost(nodes): Ghost<Seq<NodeModel>>) -> (frame: Frame)
        requires
            whole(nodes),
            self.nodes@.len() == nodes.len(),
            forall|i: int|
                0 <= i < nodes.len() ==> (#[trigger] self.nodes@[i]).stands_for(
                    input@,
                    self.cursor as int,
                    nodes[i],
                ),
        ensures
            frame.model() == assemble(nodes),
    {
        let mut frames: Vec<Frame> = Vec::new();
        let mut index: usize = self.nodes.len();
        while index > 0
            invariant
                whole(nodes),
                index <= nodes.len(),
                self.nodes@.len() == nodes.len(),
                forall|i: int|
                    0 <= i < nodes.len() ==> (#[trigger] self.nodes@[i]).stands_for(
                        input@,
                        self.cursor as int,
                        nodes[i],
                    ),
                stacked(frames@) == forest(nodes, index as int),
            decreases index,
        {
            index -= 1;
            proof {
                lemma_forest(nodes, index as int);
                lemma_stacked_len(frames@);
            }
            let ghost rest = forest(nodes, index + 1);
            assert(self.nodes@[index as int].stands_for(
                input@,
                self.cursor as int,
                nodes[index as int],
            ));
            let frame = match self.nodes[index] {
                Node::Simple(payload) => Frame::Simple(copy_payload(input, payload)),
                Node::Error(payload) => Frame::Error(copy_payload(input, payload)),
                Node::Integer(value) => Frame::Integer(value),
                Node::Bulk(None) => Frame::Bulk(None),
                Node::Bulk(Some(payload)) => Frame::Bulk(Some(copy_payload(input, payload))),
                Node::Array(None) => Frame::Array(None),
                Node::Array(Some(length)) => {
                    let mut children: Vec<Frame> = Vec::new();
                    let mut taken: usize = 0;
                    while taken < length
                        invariant
                            taken <= length <= rest.len(),
                            children@.len() == taken,
                            forall|i: int|
                                0 <= i < taken ==> (#[trigger] children@[i]).model() == rest[i],
                            stacked(frames@) == rest.skip(taken as int),
                        decreases length - taken,
                    {
                        proof {
                            lemma_stacked_len(frames@);
                            lemma_stacked_top(frames@);
                            assert(rest.skip(taken as int)[0] == rest[taken as int]);
                            assert(rest.skip(taken as int).skip(1) =~= rest.skip(taken + 1));
                        }
                        let child = frames.pop().unwrap();
                        children.push(child);
                        taken += 1;
                    }
                    proof {
                        frame::lemma_models(children@, children@.len());
                        assert(frame::models(children@, children@.len()) =~= rest.take(length as int));
                    }
                    Frame::Array(Some(children))
                },
            };
            let ghost below = frames@;
            frames.push(frame);
            proof {
                lemma_stacked_top(frames@);
                assert(frames@.drop_last() =~= below);
                assert(stacked(frames@) =~= forest(nodes, index as int));
            }
        }
        proof {
            lemma_forest(nodes, 0);
            lemma_stacked_len(frames@);
            assert(nodes.take(0) =~= Seq::<NodeModel>::empty());
            lemma_stacked_top(frames@);
        }
        frames.pop().unwrap()
    }
}

/// What the frames on a stack hold, the top frame first.
spec fn stacked(frames: Seq<Frame>) -> Seq<FrameModel>
    decreases frames.len(),
{
    if frames.len() == 0 {
        Seq::empty()
    } else {
        seq![frames.last().model()] + stacked(frames.drop_last())
    }
}

proof fn lemma_stacked_len(frames: Seq<Frame>)
    ensures
        stacked(frames).len() == frames.len(),
    decreases frames.len(),
{
    if frames.len() > 0 {
        lemma_stacked_len(frames.drop_last());
    }
}

proof fn lemma_stacked_top(frames: Seq<Frame>)
    ensures
        frames.len() > 0 ==> stacked(frames)[0] == frames.last().model(),
        frames.len() > 0 ==> stacked(frames).skip(1) == stacked(frames.drop_last()),
{
    if frames.len() > 0 {
        assert(stacked(frames).skip(1) =~= stacked(frames.drop_last()));
    }
}

fn copy_payload(input: &[u8], payload: Payload) -> (result: Bytes)
    requires
        payload.start <= payload.end <= input@.len(),
    ensures
        buffer::bytes_content(result) == input@.subrange(payload.start as int, payload.end as int),
{
    copy_from_slice(slice_subrange(input, payload.start, payload.end))
}

/// Reads the text of an integer line.
pub fn parse_integer(text: &[u8]) -> (result: Result<i64, ProtocolError>)
    ensures
        match integer_value(text@) {
            Ok(value) => result == Ok::<i64, ProtocolError>(value),
            Err(reason) => result == Err::<i64, ProtocolError>(ProtocolError::Malformed(reason)),
        },
{
    let signed = text.len() > 0 && (text[0] == 45 || text[0] == 43);
    let negative = signed && text[0] == 45;
    let from: usize = if signed {
        1
    } else {
        0
    };
    let digits = slice_subrange(text, from, text.len());
    proof {
        assert(digits@ =~= if signed {
            text@.skip(1)
        } else {
            text@
        });
    }
    if digits.len() == 0 {
        return Err(ProtocolError::Malformed("inteiro sem dígitos"));
    }
    match read_digits(digits, 0x8000_0000_0000_0000) {
        Err(DigitFault::NotDigit) => Err(ProtocolError::Malformed("inteiro inválido")),
        Err(DigitFault::TooLarge) => Err(ProtocolError::Malformed("inteiro fora do intervalo")),
        Ok(value) => if negative {
            Ok((-(value as i128)) as i64)
        } else if value == 0x8000_0000_0000_0000 {
            Err(ProtocolError::Malformed("inteiro fora do intervalo"))
        } else {
            Ok(value as i64)
        },
    }
}

/// Reads the text of a bulk or array line.
pub fn parse_length(text: &[u8]) -> (result: Result<Option<usize>, ProtocolError>)
    ensures
        match length_value(text@) {
            Ok(None) => result == Ok::<Option<usize>, ProtocolError>(None),
            Ok(Some(value)) => result == Ok::<Option<usize>, ProtocolError>(Some(value as usize))
                && value <= usize::MAX,
            Err(reason) => result == Err::<Option<usize>, ProtocolError>(
                ProtocolError::Malformed(reason),
            ),
        },
{
    if text.len() == 2 && text[0] == 45 && text[1] == 49 {
        assert(text@ =~= seq![45u8, 49u8]);
        return Ok(None);
    }
    proof {
        if text@ == seq![45u8, 49u8] {
            assert(text@[0] == 45 && text@[1] == 49);
        }
    }
    if text.len() == 0 {
        return Err(ProtocolError::Malformed("comprimento sem dígitos"));
    }
    match read_digits(text, usize::MAX as u64) {
        Err(DigitFault::NotDigit) => Err(ProtocolError::Malformed("comprimento inválido")),
        Err(DigitFault::TooLarge) => Err(
            ProtocolError::Malformed("comprimento fora do intervalo"),
        ),
        Ok(value) => Ok(Some(value as usize)),
    }
}

} // verus!
