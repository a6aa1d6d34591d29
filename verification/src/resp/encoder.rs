//! Two-pass RESP2 encoder: validate the entire frame, then write it.

use super::error::EncodeError;
use super::frame::{Frame, FrameModel, NodeModel};
use super::limits::RespLimits;
use crate::buffer::{as_slice, buffer_extend, buffer_slice, length};
use crate::error::ConfigError;
use crate::numbers::{decimal_text, signed_decimal_text};
use bytes::BytesMut;
use crate::buffer;
use crate::numbers;
use crate::resp::frame;
use crate::resp::limits;
use vstd::prelude::*;

verus! {

/// How many nodes a run of nodes has announced, the first one included.
pub open spec fn declared(nodes: Seq<NodeModel>) -> nat
    decreases nodes.len(),
{
    if nodes.len() == 0 {
        1
    } else {
        declared(nodes.drop_last()) + match nodes.last() {
            NodeModel::Array(Some(count)) => count,
            _ => 0,
        }
    }
}

/// Whether the text can stand on a line of its own.
pub open spec fn one_line(text: Seq<u8>) -> bool {
    forall|i: int| 0 <= i < text.len() ==> #[trigger] text[i] != 13 && text[i] != 10
}

/// The limit that a line with this much text breaks.
pub open spec fn line_fault(text: nat, limits: RespLimits) -> Option<EncodeError> {
    if text + 3 > limits.max_line_bytes {
        Some(EncodeError::LimitExceeded("max_line_bytes"))
    } else {
        None
    }
}

/// What is wrong with the node at `index` itself.
pub open spec fn node_fault(
    nodes: Seq<NodeModel>,
    levels: Seq<nat>,
    index: int,
    limits: RespLimits,
) -> Option<EncodeError> {
    match nodes[index] {
        NodeModel::Simple(text) | NodeModel::Error(text) => if text.len() + 3
            > limits.max_line_bytes {
            Some(EncodeError::LimitExceeded("max_line_bytes"))
        } else if !one_line(text) {
            Some(EncodeError::InvalidFrame("simple/error contains CR or LF"))
        } else {
            None
        },
        NodeModel::Integer(value) => line_fault(numbers::signed_decimal(value as int).len(), limits),
        NodeModel::Bulk(None) => line_fault(2, limits),
        NodeModel::Bulk(Some(data)) => if data.len() > limits.max_bulk_bytes {
            Some(EncodeError::LimitExceeded("max_bulk_bytes"))
        } else {
            line_fault(numbers::decimal(data.len()).len(), limits)
        },
        NodeModel::Array(count) => if levels[index] + 1 > limits.max_depth {
            Some(EncodeError::LimitExceeded("max_depth"))
        } else {
            match count {
                None => line_fault(2, limits),
                Some(count) => if declared(nodes.take(index + 1)) > limits.max_nodes {
                    Some(EncodeError::LimitExceeded("max_nodes"))
                } else {
                    line_fault(numbers::decimal(count).len(), limits)
                },
            }
        },
    }
}

/// The limit that a frame breaks at the node at `index`, in the order in which
/// the limits are looked at.
pub open spec fn fault_at(
    nodes: Seq<NodeModel>,
    levels: Seq<nat>,
    index: int,
    limits: RespLimits,
) -> Option<EncodeError> {
    if index + 1 > limits.max_nodes {
        Some(EncodeError::LimitExceeded("max_nodes"))
    } else if node_fault(nodes, levels, index, limits) is Some {
        node_fault(nodes, levels, index, limits)
    } else if frame::wire(nodes.take(index + 1)).len() > limits.max_frame_bytes {
        Some(EncodeError::LimitExceeded("max_frame_bytes"))
    } else {
        None
    }
}

/// The first fault from `index` on, parents before children.
pub open spec fn fault_from(
    nodes: Seq<NodeModel>,
    levels: Seq<nat>,
    index: int,
    limits: RespLimits,
) -> Option<EncodeError>
    decreases nodes.len() - index,
{
    if index < 0 || index >= nodes.len() {
        None
    } else if fault_at(nodes, levels, index, limits) is Some {
        fault_at(nodes, levels, index, limits)
    } else {
        fault_from(nodes, levels, index + 1, limits)
    }
}

/// Why a frame cannot be written under these limits, if it cannot.
pub open spec fn frame_fault(frame: FrameModel, limits: RespLimits) -> Option<EncodeError> {
    fault_from(frame::preorder(frame), frame::levels(frame, 0), 0, limits)
}

/// Nodes of the frames on a stack, the top frame first.
spec fn stacked_nodes(stack: Seq<&Frame>) -> Seq<NodeModel>
    decreases stack.len(),
{
    if stack.len() == 0 {
        Seq::empty()
    } else {
        frame::preorder(stack.last().model()) + stacked_nodes(stack.drop_last())
    }
}

/// Levels of the frames on a stack, the top frame first.
spec fn stacked_levels(stack: Seq<(&Frame, usize)>) -> Seq<nat>
    decreases stack.len(),
{
    if stack.len() == 0 {
        Seq::empty()
    } else {
        frame::levels(stack.last().0.model(), stack.last().1 as nat) + stacked_levels(stack.drop_last())
    }
}

spec fn frames_of(stack: Seq<(&Frame, usize)>) -> Seq<&Frame> {
    stack.map_values(|entry: (&Frame, usize)| entry.0)
}

proof fn lemma_stacked_push(stack: Seq<&Frame>, frame: &Frame)
    ensures
        stacked_nodes(stack.push(frame)) == frame::preorder(frame.model()) + stacked_nodes(stack),
{
    assert(stack.push(frame).drop_last() =~= stack);
}

proof fn lemma_stacked_levels_push(stack: Seq<(&Frame, usize)>, frame: &Frame, depth: usize)
    ensures
        stacked_levels(stack.push((frame, depth))) == frame::levels(frame.model(), depth as nat)
            + stacked_levels(stack),
        frames_of(stack.push((frame, depth))) == frames_of(stack).push(frame),
{
    assert(stack.push((frame, depth)).drop_last() =~= stack);
    assert(frames_of(stack.push((frame, depth))) =~= frames_of(stack).push(frame));
}

/// Splitting a run of frames in front of the frame at `index`.
proof fn lemma_run_split(frames: Seq<FrameModel>, index: int, depth: nat)
    requires
        0 <= index < frames.len(),
    ensures
        frame::preorders(frames.skip(index)) == frame::preorder(frames[index]) + frame::preorders(
            frames.skip(index + 1),
        ),
        frame::levels_of(frames.skip(index), depth) == frame::levels(frames[index], depth) + frame::levels_of(
            frames.skip(index + 1),
            depth,
        ),
{
    let rest = frames.skip(index);
    assert(rest.subrange(1, rest.len() as int) =~= frames.skip(index + 1));
}

/// Appends a frame to `dst`, retaining all existing output on any error.
///
/// The budget is per frame, not for prior `dst` content. The consumer must also
/// limit its output buffer and the number of queued replies.
pub fn encode(frame: &Frame, dst: &mut BytesMut, limits: RespLimits) -> (result: Result<
    (),
    EncodeError,
>)
    ensures
        limits::limits_fault(limits) matches Some(reason) ==> result == Err::<(), EncodeError>(
            EncodeError::InvalidLimits(ConfigError::InvalidRespLimits { reason }),
        ),
        limits::limits_fault(limits) is None ==> match frame_fault(frame.model(), limits) {
            Some(fault) => result == Err::<(), EncodeError>(fault),
            None => if buffer::buffer_content(*old(dst)).len() + frame::encoding(frame.model()).len()
                > isize::MAX {
                result == Err::<(), EncodeError>(EncodeError::LimitExceeded("output capacity"))
            } else {
                result is Ok
            },
        },
        match result {
            Ok(_) => buffer::buffer_content(*final(dst)) == buffer::buffer_content(*old(dst)) + frame::encoding(
                frame.model(),
            ),
            Err(_) => *final(dst) == *old(dst),
        },
{
    match limits.validate() {
        Err(error) => return Err(EncodeError::InvalidLimits(error)),
        Ok(_) => {},
    }
    let size: usize = match encoded_size(frame, limits) {
        Err(error) => return Err(error),
        Ok(size) => size,
    };
    let present: usize = buffer_slice(dst).len();
    match present.checked_add(size) {
        None => return Err(EncodeError::LimitExceeded("output capacity")),
        Some(total) => {
            if total > isize::MAX as usize {
                return Err(EncodeError::LimitExceeded("output capacity"));
            }
        },
    }
    let ghost before = buffer::buffer_content(*dst);
    let ghost nodes = frame::preorder(frame.model());
    let mut pending: Vec<&Frame> = Vec::new();
    pending.push(frame);
    proof {
        lemma_stacked_push(Seq::empty(), frame);
        assert(pending@ =~= Seq::<&Frame>::empty().push(frame));
        assert(stacked_nodes(pending@) =~= nodes);
        assert(before + frame::wire(Seq::<NodeModel>::empty()) =~= before);
        assert(nodes.take(0) =~= Seq::<NodeModel>::empty());
        assert(nodes.skip(0) =~= nodes);
    }
    let ghost mut written: int = 0;
    while pending.len() > 0
        invariant
            0 <= written <= nodes.len(),
            nodes == frame::preorder(frame.model()),
            before.len() + frame::wire(nodes).len() <= isize::MAX,
            stacked_nodes(pending@) == nodes.skip(written),
            buffer::buffer_content(*dst) == before + frame::wire(nodes.take(written)),
        decreases nodes.len() - written,
    {
        let ghost stack = pending@;
        let top = pending.pop().unwrap();
        let ghost model = top.model();
        proof {
            frame::lemma_levels_len(model, 0);
            assert(nodes.skip(written) == frame::preorder(model) + stacked_nodes(stack.drop_last()));
            assert(nodes.skip(written).len() >= 1);
            assert(nodes.skip(written)[0] == frame::root(model));
            assert(nodes.take(written + 1).drop_last() =~= nodes.take(written));
            assert(nodes.take(written + 1) + nodes.skip(written + 1) =~= nodes);
            frame::lemma_wire_concat(nodes.take(written + 1), nodes.skip(written + 1));
            assert(frame::wire(nodes.take(written + 1)) == frame::wire(nodes.take(written)) + frame::node_bytes(
                frame::root(model),
            ));
        }
        match top {
            Frame::Simple(value) => line(43, as_slice(value), dst),
            Frame::Error(value) => line(45, as_slice(value), dst),
            Frame::Integer(value) => {
                let text = signed_decimal_text(*value);
                line(58, text.as_slice(), dst)
            },
            Frame::Bulk(None) => {
                line(36, [45u8, 49u8].as_slice(), dst);
                assert([45u8, 49u8]@ =~= seq![45u8, 49u8]);
            },
            Frame::Bulk(Some(value)) => {
                let text = decimal_text(length(value) as u64);
                line(36, text.as_slice(), dst);
                buffer_extend(dst, as_slice(value));
                buffer_extend(dst, [13u8, 10u8].as_slice());
                assert([13u8, 10u8]@ =~= seq![13u8, 10u8]);
            },
            Frame::Array(None) => {
                line(42, [45u8, 49u8].as_slice(), dst);
                assert([45u8, 49u8]@ =~= seq![45u8, 49u8]);
            },
            Frame::Array(Some(values)) => {
                proof {
                    frame::lemma_models(values@, values@.len());
                }
                let text = decimal_text(values.len() as u64);
                line(42, text.as_slice(), dst);
                let ghost base = pending@;
                let ghost inner = frame::models(values@, values@.len());
                let mut index: usize = values.len();
                proof {
                    assert(inner.skip(index as int) =~= Seq::<FrameModel>::empty());
                    assert(stacked_nodes(pending@) =~= frame::preorders(inner.skip(index as int))
                        + stacked_nodes(base));
                }
                while index > 0
                    invariant
                        index <= values@.len(),
                        inner.len() == values@.len(),
                        forall|i: int|
                            0 <= i < values@.len() ==> #[trigger] inner[i] == values@[i].model(),
                        stacked_nodes(pending@) == frame::preorders(inner.skip(index as int))
                            + stacked_nodes(base),
                    decreases index,
                {
                    index -= 1;
                    proof {
                        lemma_stacked_push(pending@, &values@[index as int]);
                        lemma_run_split(inner, index as int, 0);
                        assert(frame::preorder(inner[index as int]) + (frame::preorders(
                            inner.skip(index + 1),
                        ) + stacked_nodes(base)) =~= (frame::preorder(inner[index as int]) + frame::preorders(
                            inner.skip(index + 1),
                        )) + stacked_nodes(base));
                    }
                    pending.push(&values[index]);
                }
                assert(inner.skip(0) =~= inner);
            },
        }
        proof {
            assert(stack.drop_last() + seq![stack.last()] =~= stack);
            assert(nodes.skip(written) == frame::preorder(model) + stacked_nodes(stack.drop_last()));
            assert(nodes.skip(written).skip(1) =~= nodes.skip(written + 1));
            assert((frame::preorder(model) + stacked_nodes(stack.drop_last())).skip(1) =~= frame::preorders(
                frame::children(model),
            ) + stacked_nodes(stack.drop_last()));
            assert(stacked_nodes(pending@) =~= nodes.skip(written + 1));
            assert(buffer::buffer_content(*dst) =~= before + frame::wire(nodes.take(written + 1)));
            written = written + 1;
        }
    }
    proof {
        assert(nodes.take(written) =~= nodes);
    }
    Ok(())
}

fn line(prefix: u8, value: &[u8], dst: &mut BytesMut)
    requires
        buffer::buffer_content(*old(dst)).len() + value@.len() + 3 <= isize::MAX,
    ensures
        buffer::buffer_content(*final(dst)) == buffer::buffer_content(*old(dst)) + frame::line_bytes(prefix, value@),
{
    buffer_extend(dst, [prefix].as_slice());
    buffer_extend(dst, value);
    buffer_extend(dst, [13u8, 10u8].as_slice());
    assert([prefix]@ =~= seq![prefix]);
    assert([13u8, 10u8]@ =~= seq![13u8, 10u8]);
    assert(buffer::buffer_content(*dst) =~= buffer::buffer_content(*old(dst)) + frame::line_bytes(prefix, value@));
}

fn line_size(content: usize, limits: RespLimits) -> (result: Result<usize, EncodeError>)
    ensures
        match line_fault(content as nat, limits) {
            Some(fault) => result == Err::<usize, EncodeError>(fault),
            None => result == Ok::<usize, EncodeError>((content + 3) as usize) && content + 3
                <= limits.max_line_bytes,
        },
{
    match content.checked_add(3) {
        None => Err(EncodeError::LimitExceeded("max_line_bytes")),
        Some(size) => if size > limits.max_line_bytes {
            Err(EncodeError::LimitExceeded("max_line_bytes"))
        } else {
            Ok(size)
        },
    }
}

/// Whether the slice holds neither CR nor LF.
fn is_one_line(text: &[u8]) -> (result: bool)
    ensures
        result == one_line(text@),
{
    let mut index: usize = 0;
    while index < text.len()
        invariant
            index <= text@.len(),
            forall|i: int| 0 <= i < index ==> #[trigger] text@[i] != 13 && text@[i] != 10,
        decreases text@.len() - index,
    {
        if text[index] == 13 || text[index] == 10 {
            assert(!(text@[index as int] != 13 && text@[index as int] != 10));
            return false;
        }
        index += 1;
    }
    true
}

/// The size of the node's own bytes, or the limit that they break.
fn node_size(
    top: &Frame,
    depth: usize,
    pending: usize,
    visited: usize,
    limits: RespLimits,
    Ghost(nodes): Ghost<Seq<NodeModel>>,
    Ghost(levels): Ghost<Seq<nat>>,
    Ghost(index): Ghost<int>,
) -> (result: Result<usize, EncodeError>)
    requires
        0 <= index < nodes.len(),
        levels.len() == nodes.len(),
        nodes[index] == frame::root(top.model()),
        levels[index] == depth,
        visited == index + 1,
        declared(nodes.take(index)) == visited + pending,
    ensures
        match node_fault(nodes, levels, index, limits) {
            Some(fault) => result == Err::<usize, EncodeError>(fault),
            None => if frame::node_bytes(nodes[index]).len() <= usize::MAX {
                result == Ok::<usize, EncodeError>(frame::node_bytes(nodes[index]).len() as usize)
            } else {
                result == Err::<usize, EncodeError>(EncodeError::LimitExceeded("max_frame_bytes"))
            },
        },
{
    assert(nodes.take(index + 1).drop_last() =~= nodes.take(index));
    match top {
        Frame::Simple(value) | Frame::Error(value) => {
            let size: usize = match line_size(length(value), limits) {
                Err(error) => return Err(error),
                Ok(size) => size,
            };
            if !is_one_line(as_slice(value)) {
                return Err(EncodeError::InvalidFrame("simple/error contains CR or LF"));
            }
            Ok(size)
        },
        Frame::Integer(value) => line_size(signed_decimal_text(*value).len(), limits),
        Frame::Bulk(None) => line_size(2, limits),
        Frame::Bulk(Some(value)) => {
            let data: usize = length(value);
            if data > limits.max_bulk_bytes {
                return Err(EncodeError::LimitExceeded("max_bulk_bytes"));
            }
            let header: usize = match line_size(decimal_text(data as u64).len(), limits) {
                Err(error) => return Err(error),
                Ok(size) => size,
            };
            match header.checked_add(data) {
                None => Err(EncodeError::LimitExceeded("max_frame_bytes")),
                Some(size) => match size.checked_add(2) {
                    None => Err(EncodeError::LimitExceeded("max_frame_bytes")),
                    Some(size) => Ok(size),
                },
            }
        },
        Frame::Array(values) => {
            if depth >= limits.max_depth {
                return Err(EncodeError::LimitExceeded("max_depth"));
            }
            match values {
                None => line_size(2, limits),
                Some(values) => {
                    proof {
                        frame::lemma_models(values@, values@.len());
                    }
                    // Budget children before growing the metadata stack.
                    let known: u128 = visited as u128 + pending as u128 + values.len() as u128;
                    if known > limits.max_nodes as u128 {
                        return Err(EncodeError::LimitExceeded("max_nodes"));
                    }
                    line_size(decimal_text(values.len() as u64).len(), limits)
                },
            }
        },
    }
}

/// The exact size of the frame on the wire, or the first limit that it breaks.
pub fn encoded_size(frame: &Frame, limits: RespLimits) -> (result: Result<usize, EncodeError>)
    ensures
        match frame_fault(frame.model(), limits) {
            Some(fault) => result == Err::<usize, EncodeError>(fault),
            None => result == Ok::<usize, EncodeError>(frame::encoding(frame.model()).len() as usize)
                && frame::encoding(frame.model()).len() <= limits.max_frame_bytes,
        },
{
    let ghost nodes = frame::preorder(frame.model());
    let ghost depths = frame::levels(frame.model(), 0);
    let mut pending: Vec<(&Frame, usize)> = Vec::new();
    pending.push((frame, 0));
    let mut visited: usize = 0;
    let mut size: usize = 0;
    proof {
        lemma_stacked_push(Seq::empty(), frame);
        lemma_stacked_levels_push(Seq::empty(), frame, 0);
        assert(pending@ =~= Seq::<(&Frame, usize)>::empty().push((frame, 0usize)));
        assert(frames_of(Seq::empty()) =~= Seq::<&Frame>::empty());
        assert(stacked_nodes(frames_of(pending@)) =~= nodes);
        assert(stacked_levels(pending@) =~= depths);
        assert(nodes.take(0) =~= Seq::<NodeModel>::empty());
        assert(nodes.skip(0) =~= nodes);
        assert(depths.skip(0) =~= depths);
        frame::lemma_levels_len(frame.model(), 0);
    }
    while pending.len() > 0
        invariant
            nodes == frame::preorder(frame.model()),
            depths == frame::levels(frame.model(), 0),
            depths.len() == nodes.len(),
            visited <= nodes.len(),
            visited <= limits.max_nodes,
            stacked_nodes(frames_of(pending@)) == nodes.skip(visited as int),
            stacked_levels(pending@) == depths.skip(visited as int),
            forall|i: int| 0 <= i < pending@.len() ==> (#[trigger] pending@[i]).1
                <= limits.max_depth,
            declared(nodes.take(visited as int)) == visited + pending@.len(),
            size == frame::wire(nodes.take(visited as int)).len(),
            size <= limits.max_frame_bytes,
            fault_from(nodes, depths, 0, limits) == fault_from(
                nodes,
                depths,
                visited as int,
                limits,
            ),
        decreases nodes.len() - visited,
    {
        let ghost stack = pending@;
        let ghost at = visited as int;
        let (top, depth) = pending.pop().unwrap();
        let ghost model = top.model();
        proof {
            frame::lemma_levels_len(model, depth as nat);
            assert(stack.drop_last().push((top, depth)) =~= stack);
            lemma_stacked_push(frames_of(stack.drop_last()), top);
            lemma_stacked_levels_push(stack.drop_last(), top, depth);
            assert(nodes.skip(at) == frame::preorder(model) + stacked_nodes(
                frames_of(stack.drop_last()),
            ));
            assert(nodes.skip(at).len() >= 1);
            assert(nodes.skip(at)[0] == frame::root(model));
            assert(depths.skip(at)[0] == depth);
            assert(nodes.take(at + 1).drop_last() =~= nodes.take(at));
        }
        if visited >= limits.max_nodes {
            return Err(EncodeError::LimitExceeded("max_nodes"));
        }
        visited += 1;
        let delta: usize = match node_size(
            top,
            depth,
            pending.len(),
            visited,
            limits,
            Ghost(nodes),
            Ghost(depths),
            Ghost(at),
        ) {
            Err(error) => return Err(error),
            Ok(size) => size,
        };
        if let Frame::Array(Some(values)) = top {
            proof {
                frame::lemma_models(values@, values@.len());
            }
            let ghost base = pending@;
            let ghost inner = frame::models(values@, values@.len());
            let mut index: usize = values.len();
            proof {
                assert(inner.skip(index as int) =~= Seq::<FrameModel>::empty());
                assert(stacked_nodes(frames_of(pending@)) =~= frame::preorders(inner.skip(index as int))
                    + stacked_nodes(frames_of(base)));
                assert(stacked_levels(pending@) =~= frame::levels_of(
                    inner.skip(index as int),
                    (depth + 1) as nat,
                ) + stacked_levels(base));
            }
            while index > 0
                invariant
                    index <= values@.len(),
                    inner.len() == values@.len(),
                    depth < limits.max_depth,
                    forall|i: int|
                        0 <= i < values@.len() ==> #[trigger] inner[i] == values@[i].model(),
                    stacked_nodes(frames_of(pending@)) == frame::preorders(inner.skip(index as int))
                        + stacked_nodes(frames_of(base)),
                    stacked_levels(pending@) == frame::levels_of(
                        inner.skip(index as int),
                        (depth + 1) as nat,
                    ) + stacked_levels(base),
                    pending@.len() == base.len() + values@.len() - index,
                    forall|i: int| 0 <= i < pending@.len() ==> (#[trigger] pending@[i]).1
                        <= limits.max_depth,
                decreases index,
            {
                index -= 1;
                proof {
                    lemma_stacked_push(frames_of(pending@), &values@[index as int]);
                    lemma_stacked_levels_push(
                        pending@,
                        &values@[index as int],
                        (depth + 1) as usize,
                    );
                    lemma_run_split(inner, index as int, (depth + 1) as nat);
                    assert(frame::preorder(inner[index as int]) + (frame::preorders(inner.skip(index + 1))
                        + stacked_nodes(frames_of(base))) =~= (frame::preorder(inner[index as int])
                        + frame::preorders(inner.skip(index + 1))) + stacked_nodes(frames_of(base)));
                    assert(frame::levels(inner[index as int], (depth + 1) as nat) + (frame::levels_of(
                        inner.skip(index + 1),
                        (depth + 1) as nat,
                    ) + stacked_levels(base)) =~= (frame::levels(
                        inner[index as int],
                        (depth + 1) as nat,
                    ) + frame::levels_of(inner.skip(index + 1), (depth + 1) as nat)) + stacked_levels(
                        base,
                    ));
                }
                pending.push((&values[index], depth + 1));
            }
            assert(inner.skip(0) =~= inner);
        }
        proof {
            let below = stack.drop_last();
            assert(nodes.skip(at).skip(1) =~= nodes.skip(at + 1));
            assert(depths.skip(at).skip(1) =~= depths.skip(at + 1));
            assert((frame::preorder(model) + stacked_nodes(frames_of(below))).skip(1) =~= frame::preorders(
                frame::children(model),
            ) + stacked_nodes(frames_of(below)));
            assert((frame::levels(model, depth as nat) + stacked_levels(below)).skip(1) =~= frame::levels_of(
                frame::children(model),
                (depth + 1) as nat,
            ) + stacked_levels(below));
            assert(stacked_nodes(frames_of(pending@)) =~= nodes.skip(at + 1));
            assert(stacked_levels(pending@) =~= depths.skip(at + 1));
        }
        size = match size.checked_add(delta) {
            None => return Err(EncodeError::LimitExceeded("max_frame_bytes")),
            Some(total) => {
                if total > limits.max_frame_bytes {
                    return Err(EncodeError::LimitExceeded("max_frame_bytes"));
                }
                total
            },
        };
    }
    proof {
        assert(nodes.take(visited as int) =~= nodes);
    }
    Ok(size)
}

} // verus!
