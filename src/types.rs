use vstd::prelude::*;

use crate::word::Word256;

verus! {

/// One stored blob of an epoch: its replication group, its content root and
/// the indices of the storage slices it holds.
#[derive(Clone, Debug)]
pub struct BlobInfo {
    pub quorum_id: u64,
    pub storage_root: [u8; 32],
    pub indicies: Vec<u32>,
}

/// The indices of `b` strictly increase, as those of an ordered set do.
pub open spec fn ordered_indices(b: BlobInfo) -> bool {
    forall|i: int, j: int| 0 <= i < j < b.indicies@.len() ==> b.indicies@[i] < b.indicies@[j]
}

/// Two blobs are the same when quorum, root and indices all agree.
pub open spec fn same_blob(a: BlobInfo, b: BlobInfo) -> bool {
    &&& a.quorum_id == b.quorum_id
    &&& a.storage_root@ == b.storage_root@
    &&& a.indicies@ == b.indicies@
}

impl BlobInfo {
    /// Whether `self` and `other` describe the same blob.
    pub fn same_as(&self, other: &BlobInfo) -> (r: bool)
        ensures
            r == same_blob(*self, *other),
    {
        if self.quorum_id != other.quorum_id || self.indicies.len() != other.indicies.len() {
            return false;
        }
        let mut i: usize = 0;
        while i < 32
            invariant
                0 <= i <= 32,
                forall|k: int| 0 <= k < i ==> self.storage_root@[k] == other.storage_root@[k],
            decreases 32 - i,
        {
            if self.storage_root[i] != other.storage_root[i] {
                return false;
            }
            i = i + 1;
        }
        assert(self.storage_root@ =~= other.storage_root@);
        let mut j: usize = 0;
        while j < self.indicies.len()
            invariant
                0 <= j <= self.indicies@.len(),
                self.indicies@.len() == other.indicies@.len(),
                forall|k: int| 0 <= k < j ==> self.indicies@[k] == other.indicies@[k],
            decreases self.indicies@.len() - j,
        {
            if self.indicies[j] != other.indicies[j] {
                return false;
            }
            j = j + 1;
        }
        assert(self.indicies@ =~= other.indicies@);
        true
    }
}

/// The full coordinate of one storage slice.
#[derive(Clone, Copy, Debug)]
pub struct SliceIndex {
    pub epoch: u64,
    pub quorum_id: u64,
    pub storage_root: [u8; 32],
    pub index: u64,
}

/// A mining task: the hash that identifies it and the quality threshold
/// that a slice must not exceed.
#[derive(Clone, Copy, Debug)]
pub struct SampleTask {
    pub hash: [u8; 32],
    pub quality: Word256,
}

/// A slice that passed a task's threshold, with the quality derived for it.
#[derive(Clone, Copy, Debug)]
pub struct LineCandidate {
    pub slice: SliceIndex,
    pub task: SampleTask,
    pub quality: Word256,
}

impl LineCandidate {
    pub fn new(slice: SliceIndex, task: SampleTask, quality: Word256) -> (r: LineCandidate)
        ensures
            r == (LineCandidate { slice, task, quality }),
    {
        LineCandidate { slice, task, quality }
    }
}

} // verus!
