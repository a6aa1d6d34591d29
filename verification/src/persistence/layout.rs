//! Durable identity of the partitioning; changes require an offline migration.

use crate::error::ConfigError;
use crate::storage::routing::{ShardRouter, MAX_SHARDS};
use crate::storage::routing;
use vstd::prelude::*;

verus! {

/// FNV-1a64 over the first hash tag that is not empty.
pub const ROUTING_VERSION: u32 = 1;

#[derive(Clone, Copy, Debug, PartialEq, Eq, Structural)]
pub struct DurableLayout {
    pub shard_count: u32,
    pub routing_version: u32,
}

impl Default for DurableLayout {
    fn default() -> (result: Self)
        ensures
            result == (DurableLayout { shard_count: 1, routing_version: ROUTING_VERSION }),
    {
        DurableLayout { shard_count: 1, routing_version: ROUTING_VERSION }
    }
}

/// What is wrong with a layout.
pub open spec fn layout_fault(layout: DurableLayout) -> Option<&'static str> {
    if !(1 <= layout.shard_count <= MAX_SHARDS) {
        Some("SIDER_SHARDS precisa estar entre 1 e 256")
    } else if layout.routing_version != ROUTING_VERSION {
        Some("versão de roteamento AOF não suportada")
    } else {
        None
    }
}

/// The share of a total that a shard gets; the first shards take what is left
/// over.
pub open spec fn share(total: int, count: int, shard: int) -> int {
    total / count + if shard < total % count {
        1int
    } else {
        0
    }
}

impl DurableLayout {
    pub fn validate(self) -> (result: Result<(), ConfigError>)
        ensures
            result == match layout_fault(self) {
                None => Ok::<(), ConfigError>(()),
                Some(reason) => Err(ConfigError::InvalidServerLimits { reason }),
            },
    {
        match ShardRouter::new(self.shard_count as usize) {
            Err(error) => return Err(error),
            Ok(_) => {},
        }
        if self.routing_version != ROUTING_VERSION {
            return Err(
                ConfigError::InvalidServerLimits {
                    reason: "versão de roteamento AOF não suportada",
                },
            );
        }
        Ok(())
    }

    pub fn shard_for(self, key: &[u8]) -> (result: Result<usize, ConfigError>)
        ensures
            match layout_fault(self) {
                None => result matches Ok(shard) && shard == routing::shard_of(key@, self.shard_count as int)
                    && shard < self.shard_count,
                Some(reason) => result == Err::<usize, ConfigError>(
                    ConfigError::InvalidServerLimits { reason },
                ),
            },
    {
        match self.validate() {
            Err(error) => return Err(error),
            Ok(_) => {},
        }
        match ShardRouter::new(self.shard_count as usize) {
            Err(error) => Err(error),
            Ok(router) => Ok(router.shard_for(key)),
        }
    }

    pub fn quota(self, total_bytes: usize, shard: usize) -> (result: Result<usize, ConfigError>)
        ensures
            match layout_fault(self) {
                Some(reason) => result == Err::<usize, ConfigError>(
                    ConfigError::InvalidServerLimits { reason },
                ),
                None => if total_bytes < self.shard_count || shard >= self.shard_count {
                    result == Err::<usize, ConfigError>(
                        ConfigError::InvalidServerLimits {
                            reason: "quota total precisa reservar ao menos um byte por shard",
                        },
                    )
                } else {
                    result matches Ok(quota) && quota == share(
                        total_bytes as int,
                        self.shard_count as int,
                        shard as int,
                    ) && 1 <= quota <= total_bytes
                },
            },
    {
        match self.validate() {
            Err(error) => return Err(error),
            Ok(_) => {},
        }
        let count: usize = self.shard_count as usize;
        if total_bytes < count || shard >= count {
            return Err(
                ConfigError::InvalidServerLimits {
                    reason: "quota total precisa reservar ao menos um byte por shard",
                },
            );
        }
        proof {
            lemma_share(total_bytes as int, count as int, shard as int);
        }
        let base: usize = total_bytes / count;
        if shard < total_bytes % count {
            Ok(base + 1)
        } else {
            Ok(base)
        }
    }
}

proof fn lemma_share(total: int, count: int, shard: int)
    requires
        1 <= count <= total,
        0 <= shard < count,
    ensures
        1 <= share(total, count, shard) <= total,
{
    vstd::arithmetic::div_mod::lemma_fundamental_div_mod(total, count);
    let part = total / count;
    let left = total % count;
    assert(part >= 1) by (nonlinear_arith)
        requires
            total == count * part + left,
            0 <= left < count,
            total >= count,
            count >= 1,
    ;
    assert(part + 1 <= total || left == 0) by (nonlinear_arith)
        requires
            total == count * part + left,
            0 <= left,
            part >= 1,
            count >= 1,
    ;
    assert(part <= total) by (nonlinear_arith)
        requires
            total == count * part + left,
            0 <= left,
            part >= 1,
            count >= 1,
    ;
}

/// What the first shards get together.
pub open spec fn shares(total: int, count: int, shards: int) -> int
    decreases shards,
{
    if shards <= 0 {
        0
    } else {
        shares(total, count, shards - 1) + share(total, count, shards - 1)
    }
}

proof fn lemma_shares(total: int, count: int, shards: int)
    requires
        0 <= shards <= count,
        count >= 1,
    ensures
        shares(total, count, shards) == shards * (total / count) + if shards < total % count {
            shards
        } else {
            total % count
        },
    decreases shards,
{
    if shards > 0 {
        lemma_shares(total, count, shards - 1);
        let part = total / count;
        assert(shards * part == (shards - 1) * part + part) by (nonlinear_arith);
    } else {
        vstd::arithmetic::div_mod::lemma_fundamental_div_mod(total, count);
        assert(0 * (total / count) == 0) by (nonlinear_arith);
    }
}

/// The quotas of all shards together are the whole quota.
pub proof fn law_quotas_add_up(total: int, count: int)
    requires
        count >= 1,
        total >= 0,
    ensures
        shares(total, count, count) == total,
{
    lemma_shares(total, count, count);
    vstd::arithmetic::div_mod::lemma_fundamental_div_mod(total, count);
}

/// The shares of shards differ by no more than a byte.
pub proof fn law_quotas_are_even(total: int, count: int, left: int, right: int)
    requires
        0 <= total,
        0 < count,
        0 <= left < count,
        0 <= right < count,
    ensures
        -1 <= share(total, count, left) - share(total, count, right) <= 1,
        left <= right ==> share(total, count, left) >= share(total, count, right),
{
}

} // verus!
