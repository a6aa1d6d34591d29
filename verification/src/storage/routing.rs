//! Stable binary routing, independent of any hasher of the dataset.

use crate::buffer::as_slice;
use crate::command::reply::ExecutionError;
use crate::command::types::Command;
use crate::error::ConfigError;
use bytes::Bytes;
use crate::buffer;
use vstd::prelude::*;
use vstd::slice::slice_subrange;

verus! {

/// Bound on the workers, queues and metadata created at startup.
pub const MAX_SHARDS: usize = 256;

/// Where the byte occurs first, or -1.
pub open spec fn first_place(text: Seq<u8>, byte: u8) -> int
    decreases text.len(),
{
    if text.len() == 0 {
        -1
    } else if text[0] == byte {
        0
    } else {
        let later = first_place(text.skip(1), byte);
        if later < 0 {
            -1
        } else {
            later + 1
        }
    }
}

pub proof fn lemma_first_place(text: Seq<u8>, byte: u8, index: int)
    requires
        0 <= index <= text.len(),
        forall|i: int| 0 <= i < index ==> text[i] != byte,
    ensures
        index < text.len() && text[index] == byte ==> first_place(text, byte) == index,
        index == text.len() ==> first_place(text, byte) == -1,
    decreases text.len(),
{
    if index > 0 {
        assert(text[0] != byte);
        let rest = text.skip(1);
        assert forall|i: int| 0 <= i < index - 1 implies rest[i] != byte by {
            assert(text[i + 1] != byte);
        }
        lemma_first_place(rest, byte, index - 1);
    }
}

/// The part of a key that decides its shard: what stands between the first `{`
/// and the first `}` behind it if that is not empty, and the whole key otherwise.
pub open spec fn tag_of(key: Seq<u8>) -> Seq<u8> {
    let open = first_place(key, 123);
    if open < 0 {
        key
    } else {
        let suffix = key.skip(open + 1);
        let close = first_place(suffix, 125);
        if close > 0 {
            suffix.take(close)
        } else {
            key
        }
    }
}

fn find_byte(text: &[u8], byte: u8) -> (result: Option<usize>)
    ensures
        match result {
            Some(index) => index == first_place(text@, byte) && index < text@.len(),
            None => first_place(text@, byte) == -1,
        },
{
    let mut index: usize = 0;
    while index < text.len()
        invariant
            index <= text@.len(),
            forall|i: int| 0 <= i < index ==> text@[i] != byte,
        decreases text@.len() - index,
    {
        if text[index] == byte {
            proof {
                lemma_first_place(text@, byte, index as int);
            }
            return Some(index);
        }
        index += 1;
    }
    proof {
        lemma_first_place(text@, byte, index as int);
    }
    None
}

/// Extracts the first pair of braces that is not empty, without reading UTF-8.
///
/// A first pair that is empty or incomplete keeps the whole key, also when
/// another pair follows. A nested opening belongs to the bytes of the tag.
pub fn hash_tag(key: &[u8]) -> (result: &[u8])
    ensures
        result@ == tag_of(key@),
{
    let open: usize = match find_byte(key, 123) {
        None => return key,
        Some(open) => open,
    };
    let end: usize = key.len();
    let suffix = slice_subrange(key, open + 1, end);
    assert(suffix@ =~= key@.skip(open + 1));
    match find_byte(suffix, 125) {
        Some(close) => if close > 0 {
            let tag = slice_subrange(suffix, 0, close);
            assert(tag@ =~= suffix@.take(close as int));
            tag
        } else {
            key
        },
        None => key,
    }
}

/// FNV-1a of 64 bits: for each byte an exclusive or, then a product modulo 2^64.
pub open spec fn fnv(bytes: Seq<u8>) -> u64
    decreases bytes.len(),
{
    if bytes.len() == 0 {
        0xcbf2_9ce4_8422_2325
    } else {
        ((fnv(bytes.drop_last()) ^ (bytes.last() as u64)) as nat * 0x0000_0100_0000_01b3
            % 0x1_0000_0000_0000_0000) as u64
    }
}

/// FNV-1a of 64 bits, with multiplication modulo 2^64 at each byte.
pub fn stable_hash(bytes: &[u8]) -> (result: u64)
    ensures
        result == fnv(bytes@),
{
    let mut hash: u64 = 0xcbf2_9ce4_8422_2325;
    let mut index: usize = 0;
    while index < bytes.len()
        invariant
            index <= bytes@.len(),
            hash == fnv(bytes@.take(index as int)),
        decreases bytes@.len() - index,
    {
        assert(bytes@.take(index + 1).drop_last() =~= bytes@.take(index as int));
        let mixed: u64 = hash ^ (bytes[index] as u64);
        let product: u128 = (mixed as u128) * 0x0000_0100_0000_01b3;
        hash = (product % 0x1_0000_0000_0000_0000) as u64;
        index += 1;
    }
    assert(bytes@.take(index as int) =~= bytes@);
    hash
}

/// Maps keys to a fixed number of shards.
#[derive(Clone, Copy, Debug, PartialEq, Eq, Structural)]
pub struct ShardRouter {
    count: usize,
}

/// The shard of a key, out of `count` shards.
pub open spec fn shard_of(key: Seq<u8>, count: int) -> int {
    fnv(tag_of(key)) as int % count
}

/// The shard that a run of keys selects, given what was selected before.
pub open spec fn selection(keys: Seq<Bytes>, count: int, before: Option<usize>) -> Option<usize> {
    match before {
        Some(shard) => Some(shard),
        None => if keys.len() == 0 {
            None
        } else {
            Some(shard_of(buffer::bytes_content(keys[0]), count) as usize)
        },
    }
}

/// Whether all keys lie on the selected shard.
pub open spec fn together(keys: Seq<Bytes>, count: int, selected: Option<usize>) -> bool {
    forall|i: int|
        0 <= i < keys.len() ==> selected == Some(
            shard_of(buffer::bytes_content(#[trigger] keys[i]), count) as usize,
        )
}

impl ShardRouter {
    /// How many shards there are.
    pub closed spec fn shards(&self) -> int {
        self.count as int
    }

    pub closed spec fn wf(&self) -> bool {
        1 <= self.count <= MAX_SHARDS
    }

    /// A router over this many shards.
    pub fn new(count: usize) -> (result: Result<Self, ConfigError>)
        ensures
            if 1 <= count <= MAX_SHARDS {
                result matches Ok(router) && router.wf() && router.shards() == count
            } else {
                result == Err::<Self, ConfigError>(
                    ConfigError::InvalidServerLimits {
                        reason: "SIDER_SHARDS precisa estar entre 1 e 256",
                    },
                )
            },
    {
        if count < 1 || count > MAX_SHARDS {
            return Err(
                ConfigError::InvalidServerLimits {
                    reason: "SIDER_SHARDS precisa estar entre 1 e 256",
                },
            );
        }
        Ok(ShardRouter { count })
    }

    /// The number of shards lies within the bound.
    pub proof fn lemma_bounds(&self)
        requires
            self.wf(),
        ensures
            1 <= self.shards() <= MAX_SHARDS,
    {
    }

    pub fn shard_for(&self, key: &[u8]) -> (result: usize)
        requires
            self.wf(),
        ensures
            result == shard_of(key@, self.shards()),
            result < self.shards(),
    {
        (stable_hash(hash_tag(key)) % self.count as u64) as usize
    }

    /// Checks all keys before selecting the queue. Commands without a key use
    /// worker zero.
    pub fn route(&self, command: &Command) -> (result: Result<usize, ExecutionError>)
        requires
            self.wf(),
        ensures
            result == if together(
                command.key_seq(),
                self.shards(),
                selection(command.key_seq(), self.shards(), None),
            ) {
                Ok::<usize, ExecutionError>(
                    if command.key_seq().len() == 0 {
                        0
                    } else {
                        shard_of(buffer::bytes_content(command.key_seq()[0]), self.shards()) as usize
                    },
                )
            } else {
                Err::<usize, ExecutionError>(ExecutionError::CrossShard)
            },
    {
        let mut selected: Option<usize> = None;
        match self.select_command(command, &mut selected) {
            Err(error) => Err(error),
            Ok(_) => match selected {
                None => Ok(0),
                Some(shard) => Ok(shard),
            },
        }
    }

    /// Keeps the selected shard, or selects the one of this key.
    pub fn select_key(&self, key: &[u8], selected: &mut Option<usize>) -> (result: Result<
        (),
        ExecutionError,
    >)
        requires
            self.wf(),
        ensures
            match *old(selected) {
                Some(shard) => {
                    &&& *final(selected) == *old(selected)
                    &&& result == if shard == shard_of(key@, self.shards()) {
                        Ok::<(), ExecutionError>(())
                    } else {
                        Err::<(), ExecutionError>(ExecutionError::CrossShard)
                    }
                },
                None => result is Ok && *final(selected) == Some(
                    shard_of(key@, self.shards()) as usize,
                ),
            },
    {
        let shard: usize = self.shard_for(key);
        if let Some(previous) = *selected {
            if previous != shard {
                return Err(ExecutionError::CrossShard);
            }
        }
        *selected = Some(shard);
        Ok(())
    }

    /// Keeps the selected shard, or selects the one of the command's first key;
    /// all its keys have to lie on it.
    pub fn select_command(&self, command: &Command, selected: &mut Option<usize>) -> (result:
        Result<(), ExecutionError>)
        requires
            self.wf(),
        ensures
            *final(selected) == selection(command.key_seq(), self.shards(), *old(selected)),
            result == if together(command.key_seq(), self.shards(), *final(selected)) {
                Ok::<(), ExecutionError>(())
            } else {
                Err::<(), ExecutionError>(ExecutionError::CrossShard)
            },
    {
        let keys = command.visit_keys();
        let ghost all = command.key_seq();
        let mut crossed = false;
        let mut index: usize = 0;
        while index < keys.len()
            invariant
                self.wf(),
                all == command.key_seq(),
                index <= keys@.len(),
                keys@.len() == all.len(),
                forall|i: int| 0 <= i < keys@.len() ==> *(#[trigger] keys@[i]) == all[i],
                *selected == selection(all.take(index as int), self.shards(), *old(selected)),
                crossed == !together(all.take(index as int), self.shards(), *selected),
            decreases keys@.len() - index,
        {
            let ghost before = *selected;
            let ghost part = all.take(index as int);
            let ghost more = all.take(index + 1);
            let failed = self.select_key(as_slice(keys[index]), selected).is_err();
            proof {
                assert(more =~= part.push(all[index as int]));
                assert(more[index as int] == all[index as int]);
                if index > 0 {
                    assert(part[0] == more[0]);
                }
                assert(part.len() > 0 || *old(selected) is Some ==> before == *selected);
                if together(more, self.shards(), *selected) {
                    assert forall|i: int| 0 <= i < part.len() implies before == Some(
                        shard_of(buffer::bytes_content(#[trigger] part[i]), self.shards()) as usize,
                    ) by {
                        assert(more[i] == part[i]);
                    }
                    assert(*selected == Some(
                        shard_of(buffer::bytes_content(more[index as int]), self.shards()) as usize,
                    ));
                }
                if together(part, self.shards(), before) && !failed {
                    assert forall|i: int| 0 <= i < more.len() implies *selected == Some(
                        shard_of(buffer::bytes_content(#[trigger] more[i]), self.shards()) as usize,
                    ) by {
                        if i < index {
                            assert(more[i] == part[i]);
                        }
                    }
                }
            }
            crossed = crossed || failed;
            index += 1;
        }
        assert(all.take(index as int) =~= all);
        if crossed {
            Err(ExecutionError::CrossShard)
        } else {
            Ok(())
        }
    }
}

/// Keys whose first pair of braces holds the same tag share a shard, whatever
/// stands around the braces.
pub proof fn law_tag_decides_shard(
    tag: Seq<u8>,
    prefix: Seq<u8>,
    suffix: Seq<u8>,
    count: int,
)
    requires
        tag.len() > 0,
        !tag.contains(125),
        !prefix.contains(123),
    ensures
        tag_of(prefix + seq![123u8] + tag + seq![125u8] + suffix) == tag,
        shard_of(prefix + seq![123u8] + tag + seq![125u8] + suffix, count) == shard_of(
            seq![123u8] + tag + seq![125u8],
            count,
        ),
{
    lemma_tag(tag, prefix, suffix);
    lemma_tag(tag, Seq::empty(), Seq::empty());
    assert(Seq::<u8>::empty() + seq![123u8] + tag + seq![125u8] + Seq::<u8>::empty() =~= seq![
        123u8,
    ] + tag + seq![125u8]);
}

proof fn lemma_tag(tag: Seq<u8>, prefix: Seq<u8>, suffix: Seq<u8>)
    requires
        tag.len() > 0,
        !tag.contains(125),
        !prefix.contains(123),
    ensures
        tag_of(prefix + seq![123u8] + tag + seq![125u8] + suffix) == tag,
{
    let key = prefix + seq![123u8] + tag + seq![125u8] + suffix;
    assert forall|i: int| 0 <= i < prefix.len() implies key[i] != 123 by {
        assert(key[i] == prefix[i]);
        assert(prefix.contains(prefix[i]));
    }
    lemma_first_place(key, 123, prefix.len() as int);
    let rest = key.skip(prefix.len() as int + 1);
    assert(rest =~= tag + seq![125u8] + suffix);
    assert forall|i: int| 0 <= i < tag.len() implies rest[i] != 125 by {
        assert(rest[i] == tag[i]);
        assert(tag.contains(tag[i]));
    }
    lemma_first_place(rest, 125, tag.len() as int);
    assert(rest.take(tag.len() as int) =~= tag);
}

/// A command can be executed on one shard exactly if all of its keys lie there, and on the shard
/// that was selected before, if one was.
pub proof fn law_commands_stay_on_one_shard(keys: Seq<Bytes>, count: int, before: Option<usize>)
    requires
        0 < count <= usize::MAX,
    ensures
        together(keys, count, selection(keys, count, before)) <==> {
            &&& forall|i: int, j: int|
                0 <= i < keys.len() && 0 <= j < keys.len() ==> shard_of(
                    buffer::bytes_content(#[trigger] keys[i]),
                    count,
                ) == shard_of(buffer::bytes_content(#[trigger] keys[j]), count)
            &&& before matches Some(shard) ==> forall|i: int|
                0 <= i < keys.len() ==> shard_of(buffer::bytes_content(#[trigger] keys[i]), count)
                    == shard
        },
        forall|i: int|
            0 <= i < keys.len() ==> 0 <= shard_of(buffer::bytes_content(#[trigger] keys[i]), count)
                < count,
{
    let selected = selection(keys, count, before);
    assert forall|i: int| 0 <= i < keys.len() implies 0 <= shard_of(
        buffer::bytes_content(#[trigger] keys[i]),
        count,
    ) < count by {}
    if keys.len() > 0 {
        assert(0 <= shard_of(buffer::bytes_content(keys[0]), count) < count);
    }
    if together(keys, count, selected) {
        assert forall|i: int, j: int|
            0 <= i < keys.len() && 0 <= j < keys.len() implies shard_of(
            buffer::bytes_content(#[trigger] keys[i]),
            count,
        ) == shard_of(buffer::bytes_content(#[trigger] keys[j]), count) by {
            assert(selected == Some(shard_of(buffer::bytes_content(keys[i]), count) as usize));
            assert(selected == Some(shard_of(buffer::bytes_content(keys[j]), count) as usize));
        }
    }
}

} // verus!
