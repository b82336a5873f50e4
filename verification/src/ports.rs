//! What the parts of the daemon ask of each other.
use vstd::prelude::*;
use crate::domain::{BlockKey, Capacity, DomainResult, ShardId, ShardStatus};

verus! {

/// Chooses the shards of a key. There is no directory: where a key lives is computed.
pub trait PlacementPolicy {
    /// The best `rf` shards for a key, the best first.
    fn select(
        &self,
        key: &BlockKey,
        topology: &Vec<(ShardId, Capacity, ShardStatus)>,
        rf: usize,
    ) -> (r: Vec<ShardId>);
}

/// A store of blocks, as the gateway sees it.
pub trait BlockStore {
    fn put(&self, key: &BlockKey, data: &[u8]) -> (r: DomainResult<()>);

    fn get(&self, key: &BlockKey) -> (r: DomainResult<Vec<u8>>);

    /// The size of a block's body; [`size_of`] gives it where there is nothing cheaper than
    /// reading the body.
    fn stat(&self, key: &BlockKey) -> (r: DomainResult<u64>);

    fn has(&self, key: &BlockKey) -> (r: DomainResult<bool>);

    fn delete(&self, key: &BlockKey) -> (r: DomainResult<()>);

    /// Up to `limit` keys with a prefix, behind `after`, with their sizes.
    fn list(
        &self,
        prefix: &[u8],
        after: Option<&BlockKey>,
        limit: usize,
    ) -> (r: DomainResult<Vec<(BlockKey, u64)>>);
}

/// The size of a body that was read.
pub fn size_of(body: DomainResult<Vec<u8>>) -> (r: DomainResult<u64>)
    ensures
        match body {
            Ok(d) => r matches Ok(n) && n == d@.len(),
            Err(e) => r matches Err(x) && x@ == e@,
        },
{
    match body {
        Ok(d) => Ok(d.len() as u64),
        Err(e) => Err(e),
    }
}

/// The size of a body is its length; a body that cannot be had has no size.
pub proof fn sizes_are_lengths(body: DomainResult<Vec<u8>>, r: DomainResult<u64>)
    requires
        call_ensures(size_of, (body,), r),
    ensures
        r is Ok <==> body is Ok,
        r is Ok ==> r->Ok_0 == (body->Ok_0)@.len(),
        r is Err ==> (r->Err_0)@ == (body->Err_0)@,
{
}

} // verus!
