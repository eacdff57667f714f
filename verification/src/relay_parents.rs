//! The relay chain blocks that candidates may build on.

use crate::primitives::{BlockNumber, H256};
use vstd::prelude::*;

verus! {

/// A relay chain block that candidates may build on.
#[derive(Clone, Copy, Debug, PartialEq, Eq)]
pub struct RelayParent {
    pub hash: H256,
    pub storage_root: H256,
    pub number: BlockNumber,
}

/// The relay chain blocks that candidates may build on.
#[derive(Clone, Debug, PartialEq, Eq)]
pub struct AllowedRelayParentsTracker {
    pub entries: Vec<RelayParent>,
}

/// The first entry with the given hash.
pub open spec fn relay_parent_info(entries: Seq<RelayParent>, hash: H256) -> Option<RelayParent>
    decreases entries.len(),
{
    if entries.len() == 0 {
        None
    } else if entries[0].hash == hash {
        Some(entries[0])
    } else {
        relay_parent_info(entries.drop_first(), hash)
    }
}

impl AllowedRelayParentsTracker {
    /// The block with the given hash, if candidates may build on it.
    pub open spec fn info(&self, hash: H256) -> Option<RelayParent> {
        relay_parent_info(self.entries@, hash)
    }

    /// Finds the block with the given hash among those that candidates may build
    /// on, and gives its storage root and its number.
    pub fn acquire_info(&self, hash: H256) -> (r: Option<(H256, BlockNumber)>)
        ensures
            match self.info(hash) {
                Some(entry) => r == Some((entry.storage_root, entry.number)),
                None => r is None,
            },
            r is None <==> forall|i: int|
                0 <= i < self.entries@.len() ==> (#[trigger] self.entries@[i]).hash != hash,
            r matches Some((root, number)) ==> exists|i: int|
                0 <= i < self.entries@.len() && (#[trigger] self.entries@[i]).hash == hash
                    && self.entries@[i].storage_root == root && self.entries@[i].number == number,
    {
        proof {
            found_by_hash(self.entries@, hash);
        }
        let mut i: usize = 0;
        assert(self.entries@.skip(0) =~= self.entries@);
        while i < self.entries.len()
            invariant
                i <= self.entries@.len(),
                self.info(hash) == relay_parent_info(self.entries@.skip(i as int), hash),
            decreases self.entries@.len() - i,
        {
            if self.entries[i].hash.same(&hash) {
                return Some((self.entries[i].storage_root, self.entries[i].number));
            }
            assert(self.entries@.skip(i as int).drop_first() =~= self.entries@.skip(i as int + 1));
            i = i + 1;
        }
        None
    }
}

/// A relay chain block is found exactly if it is listed, and what is found is the first
/// entry with its hash.
pub proof fn found_by_hash(entries: Seq<RelayParent>, hash: H256)
    ensures
        relay_parent_info(entries, hash) is None <==> forall|i: int|
            0 <= i < entries.len() ==> (#[trigger] entries[i]).hash != hash,
        relay_parent_info(entries, hash) matches Some(entry) ==> exists|i: int|
            0 <= i < entries.len() && #[trigger] entries[i] == entry && entry.hash == hash && (
            forall|j: int| 0 <= j < i ==> (#[trigger] entries[j]).hash != hash),
    decreases entries.len(),
{
    if entries.len() > 0 && entries[0].hash != hash {
        let rest = entries.drop_first();
        found_by_hash(rest, hash);
        assert(forall|i: int| 0 <= i < rest.len() ==> rest[i] == entries[i + 1]);
        assert forall|i: int|
            0 < i < entries.len() implies #[trigger] entries[i] == rest[i - 1] by {
        }
        if let Some(entry) = relay_parent_info(rest, hash) {
            let i = choose|i: int|
                0 <= i < rest.len() && #[trigger] rest[i] == entry && entry.hash == hash && (
                forall|j: int| 0 <= j < i ==> (#[trigger] rest[j]).hash != hash);
            assert(entries[i + 1] == entry);
        }
    }
}

} // verus!
