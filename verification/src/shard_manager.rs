//! Where the shards of a store lie and how keys are dealt out to them.

use crate::router::{get_shard, shard_of};
use vstd::prelude::*;

verus! {

/// The directory of a store and the number of its shards.
#[derive(Debug)]
pub struct ShardManager {
    pub data_dir: String,
    pub num_shards: u32,
}

impl ShardManager {
    pub fn new(num_shards: u32, data_dir: String) -> (r: ShardManager)
        ensures
            r.num_shards == num_shards,
            r.data_dir == data_dir,
    {
        ShardManager { data_dir, num_shards }
    }

    /// The shard that owns `key`.
    pub fn get_shard(&self, key: &str) -> (id: u32)
        requires
            self.num_shards > 0,
        ensures
            id as int == shard_of(key@, self.num_shards),
            id < self.num_shards,
    {
        get_shard(key, self.num_shards)
    }
}

} // verus!
