//! An exchange: a factory contract and what a crawl has to know of it.

use vstd::prelude::*;

verus! {

/// The protocol that the pools of an exchange follow.
#[derive(Clone, Copy, Debug, PartialEq, Eq, Structural)]
pub enum PoolVariant {
    /// Constant-product pools, which hold two reserves.
    UniswapV2,
    /// Concentrated-liquidity pools, which hold liquidity and tick data.
    UniswapV3,
}

/// An exchange. It does not change once it is made.
#[derive(Clone, Copy, Debug)]
pub struct Dex {
    /// The address of the factory contract.
    pub factory_address: [u8; 20],
    /// The block in which the factory was created: no pool is older.
    pub creation_block: u64,
    /// The topic under which the factory logs the creation of a pool.
    pub pool_created_event_signature: [u8; 32],
    /// The protocol of its pools.
    pub pool_variant: PoolVariant,
}

impl Dex {
    pub fn new(
        factory_address: [u8; 20],
        pool_variant: PoolVariant,
        creation_block: u64,
        pool_created_event_signature: [u8; 32],
    ) -> (dex: Dex)
        ensures
            dex.factory_address == factory_address,
            dex.pool_variant == pool_variant,
            dex.creation_block == creation_block,
            dex.pool_created_event_signature == pool_created_event_signature,
    {
        Dex { factory_address, creation_block, pool_created_event_signature, pool_variant }
    }

    pub fn factory_address(&self) -> (address: [u8; 20])
        ensures
            address == self.factory_address,
    {
        self.factory_address
    }

    pub fn creation_block(&self) -> (block: u64)
        ensures
            block == self.creation_block,
    {
        self.creation_block
    }

    pub fn pool_created_event_signature(&self) -> (topic: [u8; 32])
        ensures
            topic == self.pool_created_event_signature,
    {
        self.pool_created_event_signature
    }

    pub fn pool_variant(&self) -> (variant: PoolVariant)
        ensures
            variant == self.pool_variant,
    {
        self.pool_variant
    }
}

} // verus!
