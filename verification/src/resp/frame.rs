//! The five RESP2 types. All payloads retain bytes without requiring UTF-8.

use bytes::Bytes;
use crate::buffer;
use crate::numbers;
use vstd::prelude::*;

verus! {

/// A RESP2 value.
#[derive(Debug, PartialEq, Eq)]
pub enum Frame {
    Simple(Bytes),
    Error(Bytes),
    Integer(i64),
    Bulk(Option<Bytes>),
    Array(Option<Vec<Frame>>),
}

/// A RESP2 value by content.
#[verifier::ext_equal]
pub enum FrameModel {
    Simple(Seq<u8>),
    Error(Seq<u8>),
    Integer(i64),
    Bulk(Option<Seq<u8>>),
    Array(Option<Seq<FrameModel>>),
}

/// One line of a frame on the wire, with the payload that follows it. An array
/// is the line that announces how many values follow.
#[verifier::ext_equal]
pub enum NodeModel {
    Simple(Seq<u8>),
    Error(Seq<u8>),
    Integer(i64),
    Bulk(Option<Seq<u8>>),
    Array(Option<nat>),
}

impl Frame {
    /// What the frame holds.
    pub open spec fn model(self) -> FrameModel
        decreases self, 0nat,
    {
        match self {
            Frame::Simple(text) => FrameModel::Simple(buffer::bytes_content(text)),
            Frame::Error(text) => FrameModel::Error(buffer::bytes_content(text)),
            Frame::Integer(value) => FrameModel::Integer(value),
            Frame::Bulk(None) => FrameModel::Bulk(None),
            Frame::Bulk(Some(data)) => FrameModel::Bulk(Some(buffer::bytes_content(data))),
            Frame::Array(None) => FrameModel::Array(None),
            Frame::Array(Some(values)) => FrameModel::Array(
                Some(models(values@, values@.len())),
            ),
        }
    }
}

/// What the first `count` frames hold.
pub open spec fn models(values: Seq<Frame>, count: nat) -> Seq<FrameModel>
    decreases values, count,
{
    if count == 0 || count > values.len() {
        Seq::empty()
    } else {
        models(values, (count - 1) as nat).push(values[count - 1].model())
    }
}

pub proof fn lemma_models(values: Seq<Frame>, count: nat)
    requires
        count <= values.len(),
    ensures
        models(values, count).len() == count,
        forall|i: int| 0 <= i < count ==> #[trigger] models(values, count)[i] == values[i].model(),
    decreases count,
{
    if count > 0 {
        lemma_models(values, (count - 1) as nat);
    }
}

impl Clone for Frame {
    fn clone(&self) -> (result: Self)
        ensures
            result.model() == self.model(),
        decreases *self,
    {
        match self {
            Frame::Simple(text) => Frame::Simple(text.clone()),
            Frame::Error(text) => Frame::Error(text.clone()),
            Frame::Integer(value) => Frame::Integer(*value),
            Frame::Bulk(None) => Frame::Bulk(None),
            Frame::Bulk(Some(data)) => Frame::Bulk(Some(data.clone())),
            Frame::Array(None) => Frame::Array(None),
            Frame::Array(Some(values)) => {
                let mut copies: Vec<Frame> = Vec::new();
                let mut index: usize = 0;
                while index < values.len()
                    invariant
                        *self == Frame::Array(Some(*values)),
                        index <= values@.len(),
                        copies@.len() == index,
                        forall|i: int|
                            0 <= i < index ==> (#[trigger] copies@[i]).model()
                                == values@[i].model(),
                    decreases values@.len() - index,
                {
                    assert(decreases_to!(*self => self->Array_0));
                    assert(decreases_to!(self->Array_0 => self->Array_0->Some_0));
                    assert(decreases_to!(self->Array_0->Some_0 => values@));
                    assert(decreases_to!(values@ => values@[index as int]));
                    copies.push(values[index].clone());
                    index += 1;
                }
                proof {
                    lemma_models(values@, values@.len());
                    lemma_models(copies@, copies@.len());
                    assert(models(values@, values@.len()) =~= models(copies@, copies@.len()));
                }
                Frame::Array(Some(copies))
            },
        }
    }
}

/// The line that a frame starts with.
pub open spec fn root(frame: FrameModel) -> NodeModel {
    match frame {
        FrameModel::Simple(text) => NodeModel::Simple(text),
        FrameModel::Error(text) => NodeModel::Error(text),
        FrameModel::Integer(value) => NodeModel::Integer(value),
        FrameModel::Bulk(data) => NodeModel::Bulk(data),
        FrameModel::Array(None) => NodeModel::Array(None),
        FrameModel::Array(Some(values)) => NodeModel::Array(Some(values.len())),
    }
}

/// The values inside a frame.
pub open spec fn children(frame: FrameModel) -> Seq<FrameModel> {
    match frame {
        FrameModel::Array(Some(values)) => values,
        _ => Seq::empty(),
    }
}

/// Every line of a frame, parents before children.
pub open spec fn preorder(frame: FrameModel) -> Seq<NodeModel>
    decreases frame,
{
    match frame {
        FrameModel::Array(Some(values)) => seq![root(frame)] + preorders(values),
        _ => seq![root(frame)],
    }
}

/// Every line of a run of frames.
pub open spec fn preorders(frames: Seq<FrameModel>) -> Seq<NodeModel>
    decreases frames,
{
    if frames.len() == 0 {
        Seq::empty()
    } else {
        preorder(frames[0]) + preorders(frames.subrange(1, frames.len() as int))
    }
}

/// How many arrays enclose each line of a frame that `depth` arrays enclose.
pub open spec fn levels(frame: FrameModel, depth: nat) -> Seq<nat>
    decreases frame,
{
    match frame {
        FrameModel::Array(Some(values)) => seq![depth] + levels_of(values, depth + 1),
        _ => seq![depth],
    }
}

/// How many arrays enclose each line of a run of frames.
pub open spec fn levels_of(frames: Seq<FrameModel>, depth: nat) -> Seq<nat>
    decreases frames,
{
    if frames.len() == 0 {
        Seq::empty()
    } else {
        levels(frames[0], depth) + levels_of(frames.subrange(1, frames.len() as int), depth)
    }
}

pub proof fn lemma_levels_len(frame: FrameModel, depth: nat)
    ensures
        levels(frame, depth).len() == preorder(frame).len(),
        preorder(frame).len() >= 1,
        preorder(frame)[0] == root(frame),
        levels(frame, depth)[0] == depth,
    decreases frame,
{
    match frame {
        FrameModel::Array(Some(values)) => {
            lemma_levels_of_len(values, depth + 1);
        },
        _ => {},
    }
}

pub proof fn lemma_levels_of_len(frames: Seq<FrameModel>, depth: nat)
    ensures
        levels_of(frames, depth).len() == preorders(frames).len(),
        preorders(frames).len() >= frames.len(),
    decreases frames,
{
    if frames.len() > 0 {
        lemma_levels_len(frames[0], depth);
        lemma_levels_of_len(frames.subrange(1, frames.len() as int), depth);
    }
}

/// A line as written: prefix, text and CRLF.
pub open spec fn line_bytes(prefix: u8, text: Seq<u8>) -> Seq<u8> {
    seq![prefix] + text + seq![13u8, 10u8]
}

/// One node as written.
pub open spec fn node_bytes(node: NodeModel) -> Seq<u8> {
    match node {
        NodeModel::Simple(text) => line_bytes(43, text),
        NodeModel::Error(text) => line_bytes(45, text),
        NodeModel::Integer(value) => line_bytes(58, numbers::signed_decimal(value as int)),
        NodeModel::Bulk(None) => line_bytes(36, seq![45u8, 49u8]),
        NodeModel::Bulk(Some(data)) => line_bytes(36, numbers::decimal(data.len())) + data + seq![
            13u8,
            10u8,
        ],
        NodeModel::Array(None) => line_bytes(42, seq![45u8, 49u8]),
        NodeModel::Array(Some(count)) => line_bytes(42, numbers::decimal(count)),
    }
}

/// A run of nodes as written, one after the other.
pub open spec fn wire(nodes: Seq<NodeModel>) -> Seq<u8>
    decreases nodes.len(),
{
    if nodes.len() == 0 {
        Seq::empty()
    } else {
        wire(nodes.drop_last()) + node_bytes(nodes.last())
    }
}

/// The bytes that stand for a frame.
pub open spec fn encoding(frame: FrameModel) -> Seq<u8> {
    wire(preorder(frame))
}

pub proof fn lemma_wire_concat(left: Seq<NodeModel>, right: Seq<NodeModel>)
    ensures
        wire(left + right) == wire(left) + wire(right),
    decreases right.len(),
{
    if right.len() == 0 {
        assert(left + right =~= left);
        assert(wire(left) + wire(right) =~= wire(left));
    } else {
        assert((left + right).drop_last() =~= left + right.drop_last());
        lemma_wire_concat(left, right.drop_last());
        assert(wire(left + right) =~= wire(left) + wire(right));
    }
}

} // verus!
