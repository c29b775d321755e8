use vstd::prelude::*;

use crate::scan::{
    all_derived, blob_slices, blobs_slices, deterministic, entries_slices,
    lemma_select_deterministic, lemma_select_push, select, slice_of,
};
use crate::types::{ordered_indices, same_blob, BlobInfo, LineCandidate, SampleTask, SliceIndex};
use crate::word::Word256;

verus! {

/// Every element of `s` is smaller than the ones after it.
pub open spec fn strictly_increasing(s: Seq<u64>) -> bool {
    forall|i: int, j: int| 0 <= i < j < s.len() ==> s[i] < s[j]
}

/// `m` is in `s` and no element of `s` is smaller.
pub open spec fn is_least(s: Set<u64>, m: u64) -> bool {
    s.contains(m) && forall|e: u64| s.contains(e) ==> m <= e
}

/// `blobs` with each blob kept at its first place only.
pub open spec fn distinct_blobs(blobs: Seq<BlobInfo>) -> Seq<BlobInfo>
    decreases blobs.len(),
{
    if blobs.len() == 0 {
        Seq::empty()
    } else {
        let d = distinct_blobs(blobs.drop_last());
        if exists|k: int| 0 <= k < d.len() && same_blob(d[k], blobs.last()) {
            d
        } else {
            d.push(blobs.last())
        }
    }
}

/// Whether one of `kept` is the same blob as `b`.
fn holds_blob(kept: &Vec<BlobInfo>, b: &BlobInfo) -> (r: bool)
    ensures
        r == exists|k: int| 0 <= k < kept@.len() && same_blob(kept@[k], *b),
{
    let mut i: usize = 0;
    while i < kept.len()
        invariant
            0 <= i <= kept@.len(),
            forall|k: int| 0 <= k < i ==> !same_blob(kept@[k], *b),
        decreases kept@.len() - i,
    {
        if kept[i].same_as(b) {
            return true;
        }
        i = i + 1;
    }
    false
}

/// `blobs` with each blob kept at its first place only.
fn dedup_blobs(blobs: Vec<BlobInfo>) -> (r: Vec<BlobInfo>)
    requires
        forall|k: int| 0 <= k < blobs@.len() ==> ordered_indices(#[trigger] blobs@[k]),
    ensures
        r@ == distinct_blobs(blobs@),
        forall|k: int| 0 <= k < r@.len() ==> ordered_indices(#[trigger] r@[k]),
{
    let ghost orig = blobs@;
    let mut rest = blobs;
    let mut kept: Vec<BlobInfo> = Vec::new();
    let n = rest.len();
    let mut i: usize = 0;
    assert(orig.subrange(0, 0) =~= Seq::<BlobInfo>::empty());
    assert(rest@ =~= orig.subrange(0, n as int));
    while i < n
        invariant
            0 <= i <= n,
            n == orig.len(),
            rest@ == orig.subrange(i as int, n as int),
            kept@ == distinct_blobs(orig.subrange(0, i as int)),
            forall|k: int| 0 <= k < orig.len() ==> ordered_indices(#[trigger] orig[k]),
            forall|k: int| 0 <= k < kept@.len() ==> ordered_indices(#[trigger] kept@[k]),
        decreases n - i,
    {
        let b = rest.remove(0);
        assert(rest@ =~= orig.subrange(i + 1, n as int));
        assert(orig.subrange(0, i + 1).drop_last() =~= orig.subrange(0, i as int));
        assert(orig.subrange(0, i + 1).last() == b);
        assert(b == orig[i as int]);
        if !holds_blob(&kept, &b) {
            kept.push(b);
        }
        i = i + 1;
    }
    assert(orig.subrange(0, n as int) =~= orig);
    kept
}

proof fn lemma_distinct_blobs_nonempty(blobs: Seq<BlobInfo>)
    requires
        blobs.len() > 0,
    ensures
        distinct_blobs(blobs).len() > 0,
    decreases blobs.len(),
{
    if blobs.len() > 1 {
        lemma_distinct_blobs_nonempty(blobs.drop_last());
    }
}

/// The blobs known for one epoch.
#[derive(Clone, Debug)]
pub struct EpochEntry {
    pub epoch: u64,
    pub blobs: Vec<BlobInfo>,
}

/// What one step of draining the pending epochs decided.
#[derive(Clone, Copy, Debug, PartialEq, Eq, Structural)]
pub enum FetchStep {
    /// Nothing more is drained in this call: the deadline passed or nothing is pending.
    Finished,
    /// The smallest pending epoch was taken off and is cached already.
    Skipped(u64),
    /// The smallest pending epoch was taken off and must be fetched.
    Fetch(u64),
}

/// `r` is what one step of draining did, `new` the state after it: before the
/// deadline the smallest pending epoch leaves the pending set, and the step says
/// whether the cache had it; otherwise, or with nothing pending, nothing changes.
pub open spec fn fetch_step_spec(
    old: LineMetadata,
    before_deadline: bool,
    new: LineMetadata,
    r: FetchStep,
) -> bool {
    &&& new.cache() == old.cache()
    &&& if !before_deadline || old.pending() == Set::<u64>::empty() {
        r == FetchStep::Finished && new.pending() == old.pending()
    } else {
        match r {
            FetchStep::Finished => false,
            FetchStep::Skipped(e) => is_least(old.pending(), e) && old.cache().contains_key(e)
                && new.pending() == old.pending().remove(e),
            FetchStep::Fetch(e) => is_least(old.pending(), e) && !old.cache().contains_key(e)
                && new.pending() == old.pending().remove(e),
        }
    }
}

/// `r` is what a scan of `m` from `start` over at most `n` epochs returns: with
/// no cached epoch at or after `start`, nothing and no epoch; otherwise the
/// candidates among the visited slices, for qualities that `derive` returns, and
/// the last epoch visited, whether or not any candidate came of it.
pub open spec fn scan_spec<F: Fn([u8; 32], u64, u64, [u8; 32], u32) -> [u8; 32]>(
    m: LineMetadata,
    start: u64,
    n: usize,
    task: SampleTask,
    derive: F,
    r: (Vec<LineCandidate>, Option<u64>),
) -> bool {
    if forall|e: u64| m.cache().contains_key(e) ==> e < start {
        r.0@.len() == 0 && r.1 == None::<u64>
    } else {
        let v = m.visited(start, n);
        &&& r.1 == Some(if v.len() == 0 { 0u64 } else { v.last().epoch })
        &&& exists|qs: Seq<Word256>|
            all_derived(derive, task, entries_slices(v), qs) && r.0@ == select(
                entries_slices(v),
                qs,
                task,
            )
    }
}

/// `v` is the batch of a scan of `m` from `start` over at most `n` epochs: the
/// first `n` cached epochs at or after `start`, in ascending order, each with
/// its cache entry; fewer only where no more are cached.
pub open spec fn is_batch(m: LineMetadata, start: u64, n: usize, v: Seq<EpochEntry>) -> bool {
    &&& v.len() <= n
    &&& forall|i: int|
        0 <= i < v.len() ==> #[trigger] v[i].epoch >= start && m.cache().contains_key(v[i].epoch)
            && m.cache()[v[i].epoch] == v[i].blobs@
    &&& forall|i: int, j: int| 0 <= i < j < v.len() ==> v[i].epoch < v[j].epoch
    &&& forall|e: u64|
        #[trigger] m.cache().contains_key(e) && e >= start && v.len() > 0 && e <= v.last().epoch
            ==> exists|i: int| 0 <= i < v.len() && v[i].epoch == e
    &&& v.len() < n ==> forall|e: u64|
        #[trigger] m.cache().contains_key(e) && e >= start ==> exists|i: int|
            0 <= i < v.len() && v[i].epoch == e
}

/// `new` is `old` after the blobs `blobs` came back for `epoch`: a non-empty
/// result, each blob in it once, becomes the epoch's cache entry; an empty one,
/// or one for an epoch cached already, leaves the cache as it was (entries are
/// never replaced); the pending epochs stay as they were.
pub open spec fn record_spec(
    old: LineMetadata,
    epoch: u64,
    blobs: Seq<BlobInfo>,
    new: LineMetadata,
) -> bool {
    &&& new.pending() == old.pending()
    &&& new.cache() == (if blobs.len() == 0 || old.cache().contains_key(epoch) {
        old.cache()
    } else {
        old.cache().insert(epoch, distinct_blobs(blobs))
    })
}

/// The epoch cache together with the epochs that wait to be fetched.
pub struct LineMetadata {
    data: Vec<EpochEntry>,
    epoch_to_fetch: Vec<u64>,
}

impl Default for LineMetadata {
    fn default() -> (r: LineMetadata)
        ensures
            r.wf(),
            r.pending() == Set::<u64>::empty(),
            r.cache() == Map::<u64, Seq<BlobInfo>>::empty(),
    {
        LineMetadata::new()
    }
}

/// Inserts `e` into the strictly increasing `v`, keeping it so.
fn insert_sorted(v: &mut Vec<u64>, e: u64)
    requires
        strictly_increasing(old(v)@),
    ensures
        strictly_increasing(final(v)@),
        forall|x: u64| #[trigger] final(v)@.contains(x) <==> (old(v)@.contains(x) || x == e),
{
    let ghost s0 = v@;
    let mut i: usize = 0;
    while i < v.len() && v[i] < e
        invariant
            0 <= i <= v.len(),
            v@ == s0,
            strictly_increasing(s0),
            forall|k: int| 0 <= k < i ==> s0[k] < e,
        decreases v.len() - i,
    {
        i = i + 1;
    }
    if i < v.len() && v[i] == e {
        assert(s0.contains(e));
        return;
    }
    v.insert(i, e);
    let ghost s1 = v@;
    assert(s1 =~= s0.subrange(0, i as int).push(e) + s0.subrange(i as int, s0.len() as int));
    assert forall|a: int, b: int| 0 <= a < b < s1.len() implies s1[a] < s1[b] by {
        if b < i {
        } else if b == i {
        } else if a < i {
            assert(s1[b] == s0[b - 1]);
            assert(s0[i as int] > e);
        } else if a == i {
            assert(s1[b] == s0[b - 1]);
            assert(s0[i as int] > e);
            if b - 1 > i {
                assert(s0[i as int] < s0[b - 1]);
            }
        } else {
            assert(s1[a] == s0[a - 1]);
            assert(s1[b] == s0[b - 1]);
        }
    }
    assert forall|x: u64| #[trigger] s1.contains(x) <==> (s0.contains(x) || x == e) by {
        if s1.contains(x) {
            let k = choose|k: int| 0 <= k < s1.len() && s1[k] == x;
            if k < i {
                assert(s0[k] == x);
            } else if k > i {
                assert(s0[k - 1] == x);
            }
        }
        if s0.contains(x) {
            let k = choose|k: int| 0 <= k < s0.len() && s0[k] == x;
            if k < i {
                assert(s1[k] == x);
            } else {
                assert(s1[k + 1] == x);
            }
        }
        if x == e {
            assert(s1[i as int] == x);
        }
    }
}

impl LineMetadata {
    /// The cache is ordered by epoch with no epoch twice and no empty entry,
    /// the pending epochs are ordered with none twice,
    /// and the indices of each cached blob strictly increase.
    pub closed spec fn wf(&self) -> bool {
        &&& strictly_increasing(self.epoch_to_fetch@)
        &&& forall|i: int, j: int|
            0 <= i < j < self.data@.len() ==> self.data@[i].epoch < self.data@[j].epoch
        &&& forall|i: int| 0 <= i < self.data@.len() ==> self.data@[i].blobs@.len() > 0
        &&& forall|i: int, k: int|
            0 <= i < self.data@.len() && 0 <= k < self.data@[i].blobs@.len() ==> ordered_indices(
                #[trigger] self.data@[i].blobs@[k],
            )
    }

    /// The epochs that wait to be fetched.
    pub closed spec fn pending(&self) -> Set<u64> {
        Set::new(|e: u64| self.epoch_to_fetch@.contains(e))
    }

    /// Whether the cache holds an entry for `e`.
    pub closed spec fn has_epoch(&self, e: u64) -> bool {
        exists|i: int| 0 <= i < self.data@.len() && self.data@[i].epoch == e
    }

    /// The cache: each cached epoch with the blobs known for it.
    pub closed spec fn cache(&self) -> Map<u64, Seq<BlobInfo>> {
        Map::new(
            |e: u64| self.has_epoch(e),
            |e: u64|
                self.data@[choose|i: int|
                    0 <= i < self.data@.len() && self.data@[i].epoch == e].blobs@,
        )
    }

    proof fn lemma_cache_at(&self, i: int)
        requires
            self.wf(),
            0 <= i < self.data@.len(),
        ensures
            self.cache().contains_key(self.data@[i].epoch),
            self.cache()[self.data@[i].epoch] == self.data@[i].blobs@,
    {
        let e = self.data@[i].epoch;
        assert(self.has_epoch(e));
        let j = choose|j: int| 0 <= j < self.data@.len() && self.data@[j].epoch == e;
        if j < i {
            assert(self.data@[j].epoch < self.data@[i].epoch);
        } else if j > i {
            assert(self.data@[i].epoch < self.data@[j].epoch);
        }
    }

    /// An empty cache with nothing pending.
    pub fn new() -> (r: LineMetadata)
        ensures
            r.wf(),
            r.pending() == Set::<u64>::empty(),
            r.cache() == Map::<u64, Seq<BlobInfo>>::empty(),
    {
        let r = LineMetadata { data: Vec::new(), epoch_to_fetch: Vec::new() };
        assert(r.pending() =~= Set::<u64>::empty());
        assert(r.cache() =~= Map::<u64, Seq<BlobInfo>>::empty());
        r
    }

    /// Whether any epoch waits to be fetched.
    pub fn needs_fetch(&self) -> (r: bool)
        requires
            self.wf(),
        ensures
            r == exists|e: u64| self.pending().contains(e),
    {
        if self.epoch_to_fetch.len() > 0 {
            assert(self.pending().contains(self.epoch_to_fetch@[0]));
        }
        self.epoch_to_fetch.len() > 0
    }

    /// Adds `epoch` to the pending epochs; nothing changes where it is there already.
    pub fn new_epoch(&mut self, epoch: u64)
        requires
            old(self).wf(),
        ensures
            final(self).wf(),
            final(self).pending() == old(self).pending().insert(epoch),
            final(self).cache() == old(self).cache(),
    {
        insert_sorted(&mut self.epoch_to_fetch, epoch);
        assert(self.pending() =~= old(self).pending().insert(epoch));
        assert(self.cache() =~= old(self).cache());
    }

    /// Adds each of `epoches` to the pending epochs, in any order.
    pub fn new_epoch_range(&mut self, epoches: &[u64])
        requires
            old(self).wf(),
        ensures
            final(self).wf(),
            final(self).pending() == old(self).pending().union(epoches@.to_set()),
            final(self).cache() == old(self).cache(),
    {
        let mut i: usize = 0;
        while i < epoches.len()
            invariant
                0 <= i <= epoches@.len(),
                self.wf(),
                self.pending() == old(self).pending().union(epoches@.subrange(0, i as int).to_set()),
                self.cache() == old(self).cache(),
            decreases epoches@.len() - i,
        {
            self.new_epoch(epoches[i]);
            assert(epoches@.subrange(0, i + 1) =~= epoches@.subrange(0, i as int).push(epoches@[i as int]));
            assert(epoches@.subrange(0, i + 1).to_set() =~= epoches@.subrange(0, i as int).to_set().insert(epoches@[i as int]))
                by {
                epoches@.subrange(0, i as int).lemma_push_to_set_commute(epoches@[i as int]);
            }
            assert(self.pending() =~= old(self).pending().union(epoches@.subrange(0, i + 1).to_set()));
            i = i + 1;
        }
        assert(epoches@.subrange(0, epoches@.len() as int) =~= epoches@);
    }

    /// Whether the cache holds an entry for `epoch`.
    pub fn contains_epoch(&self, epoch: u64) -> (r: bool)
        requires
            self.wf(),
        ensures
            r == self.cache().contains_key(epoch),
    {
        let mut i: usize = 0;
        while i < self.data.len()
            invariant
                0 <= i <= self.data@.len(),
                forall|k: int| 0 <= k < i ==> self.data@[k].epoch != epoch,
            decreases self.data@.len() - i,
        {
            if self.data[i].epoch == epoch {
                assert(self.has_epoch(epoch));
                return true;
            }
            i = i + 1;
        }
        false
    }

    /// The cached epochs, in ascending order.
    pub fn cached_epochs(&self) -> (r: Vec<u64>)
        requires
            self.wf(),
        ensures
            r@ == self.entry_epochs(),
            strictly_increasing(r@),
            forall|e: u64| #[trigger] r@.contains(e) <==> self.cache().contains_key(e),
    {
        let mut r: Vec<u64> = Vec::new();
        let mut i: usize = 0;
        while i < self.data.len()
            invariant
                0 <= i <= self.data@.len(),
                r@ == self.data@.subrange(0, i as int).map_values(|x: EpochEntry| x.epoch),
            decreases self.data@.len() - i,
        {
            r.push(self.data[i].epoch);
            assert(self.data@.subrange(0, i + 1).map_values(|x: EpochEntry| x.epoch) =~= self.data@.subrange(0, i as int).map_values(|x: EpochEntry| x.epoch).push(self.data@[i as int].epoch));
            i = i + 1;
        }
        assert(self.data@.subrange(0, self.data@.len() as int) =~= self.data@);
        assert forall|e: u64| #[trigger] r@.contains(e) <==> self.cache().contains_key(e) by {
            if r@.contains(e) {
                let k = choose|k: int| 0 <= k < r@.len() && r@[k] == e;
                assert(self.data@[k].epoch == e);
            }
            if self.cache().contains_key(e) {
                let k = choose|k: int| 0 <= k < self.data@.len() && self.data@[k].epoch == e;
                assert(r@[k] == e);
            }
        }
        r
    }

    /// One step of draining the pending epochs, taken only before the deadline:
    /// the smallest pending epoch is taken off, and the step says whether it is
    /// cached already or must be fetched.
    pub fn fetch_step(&mut self, before_deadline: bool) -> (r: FetchStep)
        requires
            old(self).wf(),
        ensures
            final(self).wf(),
            fetch_step_spec(*old(self), before_deadline, *final(self), r),
    {
        if !before_deadline || self.epoch_to_fetch.len() == 0 {
            proof {
                if before_deadline {
                    assert(self.pending() =~= Set::<u64>::empty());
                }
            }
            assert(self.cache() =~= old(self).cache());
            return FetchStep::Finished;
        }
        let ghost s0 = self.epoch_to_fetch@;
        let next_epoch = self.epoch_to_fetch.remove(0);
        assert(self.epoch_to_fetch@ =~= s0.subrange(1, s0.len() as int));
        proof {
            assert(self.pending() =~= old(self).pending().remove(next_epoch)) by {
                assert forall|x: u64| #[trigger] self.epoch_to_fetch@.contains(x) <==> (s0.contains(x) && x != next_epoch) by {
                    if self.epoch_to_fetch@.contains(x) {
                        let k = choose|k: int| 0 <= k < self.epoch_to_fetch@.len() && self.epoch_to_fetch@[k] == x;
                        assert(s0[k + 1] == x);
                        assert(s0[0] < s0[k + 1]);
                    }
                    if s0.contains(x) && x != next_epoch {
                        let k = choose|k: int| 0 <= k < s0.len() && s0[k] == x;
                        assert(k != 0);
                        assert(self.epoch_to_fetch@[k - 1] == x);
                    }
                }
            }
            assert(old(self).pending().contains(next_epoch));
            assert(old(self).pending() != Set::<u64>::empty());
            assert(self.cache() =~= old(self).cache());
            assert forall|e: u64| old(self).pending().contains(e) implies next_epoch <= e by {
                let k = choose|k: int| 0 <= k < s0.len() && s0[k] == e;
                if k > 0 {
                    assert(s0[0] < s0[k]);
                }
            }
        }
        if self.contains_epoch(next_epoch) {
            FetchStep::Skipped(next_epoch)
        } else {
            FetchStep::Fetch(next_epoch)
        }
    }

    /// Stores what the remote source returned for `epoch`: a non-empty set of
    /// blobs becomes the epoch's cache entry, each blob in it once; an empty one
    /// is dropped, and an entry already cached is kept as it is.
    pub fn record_epoch(&mut self, epoch: u64, blobs: Vec<BlobInfo>)
        requires
            old(self).wf(),
            forall|k: int| 0 <= k < blobs@.len() ==> ordered_indices(#[trigger] blobs@[k]),
        ensures
            final(self).wf(),
            record_spec(*old(self), epoch, blobs@, *final(self)),
    {
        if blobs.len() == 0 {
            return;
        }
        let ghost old_blobs = blobs;
        let blobs = dedup_blobs(blobs);
        proof {
            lemma_distinct_blobs_nonempty(old_blobs@);
        }
        let ghost d0 = self.data@;
        let ghost blobs_view = blobs@;
        let mut i: usize = 0;
        while i < self.data.len() && self.data[i].epoch < epoch
            invariant
                0 <= i <= self.data@.len(),
                self.data@ == d0,
                forall|k: int| 0 <= k < i ==> d0[k].epoch < epoch,
            decreases self.data@.len() - i,
        {
            i = i + 1;
        }
        if i < self.data.len() && self.data[i].epoch == epoch {
            proof {
                self.lemma_cache_at(i as int);
            }
            return;
        }
        self.data.insert(i, EpochEntry { epoch, blobs });
        let ghost d1 = self.data@;
        proof {
            // d1 is d0 with the entry at i put in
            let skip: int = 0;
            assert(d1.len() == d0.len() + 1 - skip);
            assert forall|k: int| 0 <= k < i implies #[trigger] d1[k] == d0[k] by {}
            assert forall|k: int| i < k < d1.len() implies #[trigger] d1[k] == d0[k - 1 + skip] by {}
            assert(d1[i as int].epoch == epoch && d1[i as int].blobs@ == blobs_view);
            assert forall|a: int, b: int| 0 <= a < b < d1.len() implies d1[a].epoch < d1[b].epoch by {
                if b > i {
                    assert(d1[b] == d0[b - 1 + skip]);
                    if i < d0.len() {
                        assert(d0[i as int].epoch >= epoch);
                    }
                    if i < d0.len() {
                        assert(d0[i as int].epoch > epoch);
                    }
                    if a > i {
                        assert(d1[a] == d0[a - 1 + skip]);
                    } else if a < i {
                        assert(d0[a].epoch < epoch);
                    }
                    if b - 1 + skip > i {
                        assert(d0[i as int].epoch < d0[b - 1 + skip].epoch);
                    }
                } else if b == i {
                    assert(d0[a].epoch < epoch);
                }
            }
            assert forall|k: int| 0 <= k < d1.len() implies d1[k].blobs@.len() > 0 by {
                if k > i {
                    assert(d1[k] == d0[k - 1 + skip]);
                }
            }
            assert(self.wf());
            let oc = old(self).cache();
            let nc = self.cache();
            assert(nc =~= oc.insert(epoch, blobs_view)) by {
                assert forall|x: u64| #[trigger] nc.contains_key(x) <==> oc.insert(epoch, blobs_view).contains_key(x) by {
                    if nc.contains_key(x) {
                        let k = choose|k: int| 0 <= k < d1.len() && d1[k].epoch == x;
                        if k < i {
                            assert(old(self).has_epoch(x));
                        } else if k > i {
                            assert(d0[k - 1 + skip].epoch == x);
                            assert(old(self).has_epoch(x));
                        }
                    }
                    if oc.contains_key(x) {
                        let k = choose|k: int| 0 <= k < d0.len() && d0[k].epoch == x;
                        if k < i {
                            assert(d1[k].epoch == x);
                        } else {
                            assert(d1[k + 1 - skip].epoch == x);
                        }
                        assert(self.has_epoch(x));
                    }
                    if x == epoch {
                        assert(d1[i as int].epoch == x);
                    }
                }
                assert forall|x: u64| #[trigger] nc.contains_key(x) implies nc[x] == oc.insert(epoch, blobs_view)[x] by {
                    let k = choose|k: int| 0 <= k < d1.len() && d1[k].epoch == x;
                    self.lemma_cache_at(k);
                    if k < i {
                        old(self).lemma_cache_at(k);
                    } else if k > i {
                        assert(d1[k] == d0[k - 1 + skip]);
                        old(self).lemma_cache_at(k - 1 + skip);
                    }
                }
            }
        }
    }

    /// The cached epochs before position `k` are below `start`, the others are not.
    pub closed spec fn is_cut(&self, start: u64, k: int) -> bool {
        &&& 0 <= k <= self.data@.len()
        &&& forall|i: int| 0 <= i < k ==> self.data@[i].epoch < start
        &&& forall|i: int| k <= i < self.data@.len() ==> self.data@[i].epoch >= start
    }

    /// The position of the first cache entry at or after `start`.
    pub closed spec fn cut(&self, start: u64) -> int {
        choose|k: int| self.is_cut(start, k)
    }

    proof fn lemma_cut(&self, start: u64, k: int)
        requires
            self.wf(),
            self.is_cut(start, k),
        ensures
            self.cut(start) == k,
    {
        let c = self.cut(start);
        assert(self.is_cut(start, c));
        if c < k {
            assert(self.data@[c].epoch < start);
        } else if c > k {
            assert(self.data@[k].epoch < start);
        }
    }

    proof fn lemma_cut_exists(&self, start: u64, k: int)
        requires
            self.wf(),
            0 <= k <= self.data@.len(),
            forall|i: int| 0 <= i < k ==> self.data@[i].epoch < start,
        ensures
            self.is_cut(start, self.cut(start)),
        decreases self.data@.len() - k,
    {
        if k == self.data@.len() || self.data@[k].epoch >= start {
            assert forall|i: int| k <= i < self.data@.len() implies self.data@[i].epoch >= start by {
                if i > k {
                    assert(self.data@[k].epoch < self.data@[i].epoch);
                }
            }
            assert(self.is_cut(start, k));
        } else {
            self.lemma_cut_exists(start, k + 1);
        }
    }

    /// The entries that a scan visits are the first `n` cached epochs at or after
    /// `start`, in ascending order, with their blobs as the cache holds them.
    pub proof fn lemma_visited(&self, start: u64, n: usize)
        requires
            self.wf(),
        ensures
            is_batch(*self, start, n, self.visited(start, n)),
    {
        self.lemma_cut_exists(start, 0);
        let c = self.cut(start);
        let len = self.data@.len() as int;
        let end = if c + n <= len { c + n } else { len };
        let v = self.visited(start, n);
        assert(v =~= self.data@.subrange(c, end));
        assert forall|i: int| 0 <= i < v.len() implies #[trigger] v[i].epoch >= start
            && self.cache().contains_key(v[i].epoch) && self.cache()[v[i].epoch] == v[i].blobs@ by {
            assert(v[i] == self.data@[c + i]);
            self.lemma_cache_at(c + i);
        }
        assert forall|i: int, j: int| 0 <= i < j < v.len() implies v[i].epoch < v[j].epoch by {
            assert(v[i] == self.data@[c + i] && v[j] == self.data@[c + j]);
        }
        assert forall|e: u64|
            #[trigger] self.cache().contains_key(e) && e >= start && v.len() > 0 && e
                <= v.last().epoch implies exists|i: int| 0 <= i < v.len() && v[i].epoch == e by {
            let j = choose|j: int| 0 <= j < len && self.data@[j].epoch == e;
            if j >= end {
                assert(self.data@[end - 1].epoch < self.data@[j].epoch);
            }
            assert(v[j - c] == self.data@[j]);
        }
        if v.len() < n {
            assert forall|e: u64| #[trigger] self.cache().contains_key(e) && e >= start implies exists|i: int|
                0 <= i < v.len() && v[i].epoch == e by {
                let j = choose|j: int| 0 <= j < len && self.data@[j].epoch == e;
                assert(v[j - c] == self.data@[j]);
            }
        }
    }

    /// Resuming after the cursor neither skips nor visits again: a batch of `a`
    /// epochs from `start`, then one of `b` epochs from the epoch after the last
    /// one visited, visit what one batch of `a + b` epochs from `start` does.
    pub proof fn lemma_visited_resume(&self, start: u64, a: usize, b: usize)
        requires
            self.wf(),
            a >= 1,
            a + b <= usize::MAX,
            self.visited(start, a).len() > 0,
            self.visited(start, a).last().epoch < u64::MAX,
        ensures
            self.visited(start, a) + self.visited(
                (self.visited(start, a).last().epoch + 1) as u64,
                b,
            ) == self.visited(start, (a + b) as usize),
    {
        self.lemma_cut_exists(start, 0);
        let c = self.cut(start);
        let len = self.data@.len() as int;
        let v = self.visited(start, a);
        let m = v.len() as int;
        let last = v.last().epoch;
        let next = (last + 1) as u64;
        assert(v =~= self.data@.subrange(c, c + m));
        assert(v.last() == self.data@[c + m - 1]);
        assert forall|i: int| 0 <= i < c + m implies self.data@[i].epoch < next by {
            if i < c + m - 1 {
                assert(self.data@[i].epoch < self.data@[c + m - 1].epoch);
            }
        }
        assert forall|i: int| c + m <= i < len implies self.data@[i].epoch >= next by {
            assert(self.data@[c + m - 1].epoch < self.data@[i].epoch);
        }
        assert(self.is_cut(next, c + m));
        self.lemma_cut(next, c + m);
        let w = self.visited(next, b);
        let u = self.visited(start, (a + b) as usize);
        if m < a {
            assert(c + m == len);
            assert(w =~= Seq::<EpochEntry>::empty());
            assert(u =~= v);
        }
        assert(v + w =~= u);
    }

    /// The cache entries that a scan from `start` over at most `n` epochs visits,
    /// in ascending order of epoch.
    pub closed spec fn visited(&self, start: u64, n: usize) -> Seq<EpochEntry> {
        let k = self.cut(start);
        let len = self.data@.len() as int;
        self.data@.subrange(k, if k + n <= len { k + n } else { len })
    }

    /// Scans at most `num_batch` cached epochs from `start_epoch` on, in ascending
    /// order, and returns the slices whose quality, as `derive` gives it, does not
    /// exceed the task's threshold, together with the last epoch visited. Where no
    /// cached epoch is at or after `start_epoch`, nothing is scanned and no epoch is
    /// returned. A batch of zero epochs visits none and returns the cursor
    /// `Some(0)`, which names no visited epoch: callers that resume from the
    /// cursor pass a batch of at least one.
    pub fn iter_next_epoch<F: Fn([u8; 32], u64, u64, [u8; 32], u32) -> [u8; 32]>(
        &self,
        start_epoch: u64,
        num_batch: usize,
        task: SampleTask,
        derive: F,
    ) -> (r: (Vec<LineCandidate>, Option<u64>))
        requires
            self.wf(),
            forall|h: [u8; 32], e: u64, q: u64, root: [u8; 32], i: u32|
                derive.requires((h, e, q, root, i)),
        ensures
            scan_spec(*self, start_epoch, num_batch, task, derive, r),
            is_batch(*self, start_epoch, num_batch, self.visited(start_epoch, num_batch)),
    {
        proof {
            self.lemma_visited(start_epoch, num_batch);
        }
        let len = self.data.len();
        if len == 0 || self.data[len - 1].epoch < start_epoch {
            proof {
                assert forall|e: u64| self.cache().contains_key(e) implies e < start_epoch by {
                    let k = choose|k: int| 0 <= k < self.data@.len() && self.data@[k].epoch == e;
                    if k < len - 1 {
                        assert(self.data@[k].epoch < self.data@[len - 1].epoch);
                    }
                }
            }
            return (Vec::new(), None);
        }
        let max_quality = Word256::from_big_endian(task.quality.to_big_endian());
        let mut first: usize = 0;
        while first < len && self.data[first].epoch < start_epoch
            invariant
                0 <= first <= len,
                len == self.data@.len(),
                forall|i: int| 0 <= i < first ==> self.data@[i].epoch < start_epoch,
            decreases len - first,
        {
            first = first + 1;
        }
        proof {
            assert forall|i: int| first <= i < len implies self.data@[i].epoch >= start_epoch by {
                if i > first {
                    assert(self.data@[first as int].epoch < self.data@[i].epoch);
                }
            }
            self.lemma_cut(start_epoch, first as int);
        }
        let end: usize = if num_batch <= len - first {
            first + num_batch
        } else {
            len
        };
        let ghost v = self.visited(start_epoch, num_batch);
        assert(v =~= self.data@.subrange(first as int, end as int));
        let mut answer: Vec<LineCandidate> = Vec::new();
        let mut last_epoch: u64 = 0;
        let ghost mut sl: Seq<SliceIndex> = Seq::empty();
        let ghost mut qs: Seq<Word256> = Seq::empty();
        let mut j: usize = first;
        assert(self.data@.subrange(first as int, first as int) =~= Seq::<EpochEntry>::empty());
        while j < end
            invariant
                first <= j <= end <= len,
                len == self.data@.len(),
                v == self.data@.subrange(first as int, end as int),
                max_quality.value() == task.quality.value(),
                forall|h: [u8; 32], e: u64, q: u64, root: [u8; 32], i: u32|
                    derive.requires((h, e, q, root, i)),
                sl == entries_slices(self.data@.subrange(first as int, j as int)),
                all_derived(derive, task, sl, qs),
                answer@ == select(sl, qs, task),
                last_epoch == (if j == first { 0u64 } else { self.data@[j - 1].epoch }),
            decreases end - j,
        {
            let entry = &self.data[j];
            let epoch = entry.epoch;
            let ghost sl0 = sl;
            let mut b: usize = 0;
            assert(entry.blobs@.subrange(0, 0) =~= Seq::<BlobInfo>::empty());
            assert(sl =~= sl0 + blobs_slices(epoch, entry.blobs@.subrange(0, 0)));
            while b < entry.blobs.len()
                invariant
                    0 <= b <= entry.blobs@.len(),
                    epoch == entry.epoch,
                    max_quality.value() == task.quality.value(),
                    forall|h: [u8; 32], e: u64, q: u64, root: [u8; 32], i: u32|
                        derive.requires((h, e, q, root, i)),
                    sl == sl0 + blobs_slices(epoch, entry.blobs@.subrange(0, b as int)),
                    all_derived(derive, task, sl, qs),
                    answer@ == select(sl, qs, task),
                decreases entry.blobs@.len() - b,
            {
                let blob = &entry.blobs[b];
                let ghost sl1 = sl;
                let mut x: usize = 0;
                assert(sl =~= sl1 + blob.indicies@.subrange(0, 0).map_values(
                    |index: u32| slice_of(epoch, *blob, index),
                ));
                while x < blob.indicies.len()
                    invariant
                        0 <= x <= blob.indicies@.len(),
                        max_quality.value() == task.quality.value(),
                        forall|h: [u8; 32], e: u64, q: u64, root: [u8; 32], i: u32|
                            derive.requires((h, e, q, root, i)),
                        sl == sl1 + blob.indicies@.subrange(0, x as int).map_values(
                            |index: u32| slice_of(epoch, *blob, index),
                        ),
                        all_derived(derive, task, sl, qs),
                        answer@ == select(sl, qs, task),
                    decreases blob.indicies@.len() - x,
                {
                    let index = blob.indicies[x];
                    let line_quality = derive(
                        task.hash,
                        epoch,
                        blob.quorum_id,
                        blob.storage_root,
                        index,
                    );
                    let quality = Word256::from_big_endian(line_quality);
                    let slice = SliceIndex {
                        epoch,
                        quorum_id: blob.quorum_id,
                        storage_root: blob.storage_root,
                        index: index as u64,
                    };
                    proof {
                        lemma_select_push(sl, qs, task, slice, quality);
                    }
                    if quality.le(&max_quality) {
                        answer.push(LineCandidate::new(slice, task, quality));
                    }
                    proof {
                        assert(slice == slice_of(epoch, *blob, index));
                        assert(blob.indicies@.subrange(0, x + 1).map_values(
                            |index: u32| slice_of(epoch, *blob, index),
                        ) =~= blob.indicies@.subrange(0, x as int).map_values(
                            |index: u32| slice_of(epoch, *blob, index),
                        ).push(slice));
                        let sl_next = sl.push(slice);
                        let qs_next = qs.push(quality);
                        assert forall|i: int| 0 <= i < sl_next.len() implies crate::scan::derived(
                            derive,
                            task,
                            sl_next[i],
                            #[trigger] qs_next[i],
                        ) by {
                            if i < sl.len() {
                                assert(sl_next[i] == sl[i] && qs_next[i] == qs[i]);
                            } else {
                                assert(sl_next[i] == slice && qs_next[i] == quality);
                                assert(slice.index as u32 == index);
                            }
                        }
                        sl = sl_next;
                        qs = qs_next;
                    }
                    x = x + 1;
                }
                proof {
                    assert(blob.indicies@.subrange(0, blob.indicies@.len() as int) =~= blob.indicies@);
                    assert(entry.blobs@.subrange(0, b + 1).drop_last() =~= entry.blobs@.subrange(0, b as int));
                    assert(blobs_slices(epoch, entry.blobs@.subrange(0, b + 1)) == blobs_slices(epoch, entry.blobs@.subrange(0, b as int)) + blob_slices(epoch, *blob));
                    assert(sl =~= sl0 + blobs_slices(epoch, entry.blobs@.subrange(0, b + 1)));
                }
                b = b + 1;
            }
            proof {
                assert(entry.blobs@.subrange(0, entry.blobs@.len() as int) =~= entry.blobs@);
                assert(self.data@.subrange(first as int, j + 1).drop_last() =~= self.data@.subrange(first as int, j as int));
                assert(entries_slices(self.data@.subrange(first as int, j + 1)) == entries_slices(self.data@.subrange(first as int, j as int)) + blobs_slices(epoch, entry.blobs@));
                assert(sl =~= entries_slices(self.data@.subrange(first as int, j + 1)));
            }
            last_epoch = epoch;
            j = j + 1;
        }
        proof {
            self.lemma_cache_at(len - 1);
            if end > first {
                assert(v.last() == self.data@[end - 1]);
            }
        }
        (answer, Some(last_epoch))
    }

    /// The epochs of the cache entries, in the order they are stored.
    pub closed spec fn entry_epochs(&self) -> Seq<u64> {
        self.data@.map_values(|x: EpochEntry| x.epoch)
    }

    /// Each epoch is stored at one position of the cache at most, however often it
    /// was enqueued and drained.
    pub proof fn lemma_epoch_stored_once(&self, e: u64)
        requires
            self.wf(),
        ensures
            forall|i: int, j: int|
                0 <= i < self.entry_epochs().len() && 0 <= j < self.entry_epochs().len()
                    && #[trigger] self.entry_epochs()[i] == e && #[trigger] self.entry_epochs()[j] == e ==> i == j,
    {
        let s = self.entry_epochs();
        assert forall|i: int, j: int|
            0 <= i < s.len() && 0 <= j < s.len() && #[trigger] s[i] == e && #[trigger] s[j] == e implies i == j by {
            if i < j {
                assert(self.data@[i].epoch < self.data@[j].epoch);
            } else if j < i {
                assert(self.data@[j].epoch < self.data@[i].epoch);
            }
        }
    }
}

/// Enqueuing an epoch that is pending already changes nothing.
pub proof fn lemma_enqueue_idempotent(p: Set<u64>, e: u64)
    ensures
        p.insert(e).insert(e) == p.insert(e),
{
    assert(p.insert(e).insert(e) =~= p.insert(e));
}

/// Two steps that each take an epoch off, with only stores of fetched results
/// between them, take them in ascending order.
pub proof fn lemma_drain_ascending(
    s0: LineMetadata,
    s1: LineMetadata,
    s2: LineMetadata,
    s3: LineMetadata,
    r1: FetchStep,
    r2: FetchStep,
    a: u64,
    b: u64,
)
    requires
        fetch_step_spec(s0, true, s1, r1),
        s2.pending() == s1.pending(),
        fetch_step_spec(s2, true, s3, r2),
        r1 == FetchStep::Fetch(a) || r1 == FetchStep::Skipped(a),
        r2 == FetchStep::Fetch(b) || r2 == FetchStep::Skipped(b),
    ensures
        a < b,
{
    assert(s2.pending().contains(b));
    assert(s0.pending().contains(b) && b != a);
}

/// The epoch that step `r` takes off the pending set, if any.
pub open spec fn taken(r: FetchStep) -> Option<u64> {
    match r {
        FetchStep::Finished => None,
        FetchStep::Skipped(e) => Some(e),
        FetchStep::Fetch(e) => Some(e),
    }
}

/// `states` is a drain with no enqueue in it: from each state, a step before
/// the deadline leads to `mids[k]`, and stores of fetched results, which keep
/// the pending epochs, lead from there to the next state.
pub open spec fn is_drain(states: Seq<LineMetadata>, mids: Seq<LineMetadata>, steps: Seq<FetchStep>) -> bool {
    &&& states.len() == steps.len() + 1
    &&& mids.len() == steps.len()
    &&& forall|k: int| 0 <= k < steps.len() ==> fetch_step_spec(states[k], true, #[trigger] mids[k], steps[k])
        && mids[k].pending() == states[k + 1].pending()
}

proof fn lemma_drain_pending_shrinks(
    states: Seq<LineMetadata>,
    mids: Seq<LineMetadata>,
    steps: Seq<FetchStep>,
    i: int,
    j: int,
)
    requires
        is_drain(states, mids, steps),
        0 <= i <= j < states.len(),
    ensures
        forall|e: u64| #[trigger] states[j].pending().contains(e) ==> states[i].pending().contains(e),
    decreases j - i,
{
    if i < j {
        lemma_drain_pending_shrinks(states, mids, steps, i, j - 1);
        assert(fetch_step_spec(states[j - 1], true, mids[j - 1], steps[j - 1]));
    }
}

/// Over a whole drain, the epochs taken off come in strictly ascending order,
/// so none is taken, nor fetched, twice; each was pending at the start, and
/// each is below every epoch still pending at the end.
pub proof fn lemma_drain_run_ascending(
    states: Seq<LineMetadata>,
    mids: Seq<LineMetadata>,
    steps: Seq<FetchStep>,
    i: int,
    j: int,
)
    requires
        is_drain(states, mids, steps),
        0 <= i < steps.len(),
        taken(steps[i]) is Some,
    ensures
        states[0].pending().contains(taken(steps[i])->0),
        forall|e: u64| #[trigger] states[steps.len() as int].pending().contains(e) ==> taken(steps[i])->0 < e,
        i < j < steps.len() && taken(steps[j]) is Some ==> taken(steps[i])->0 < taken(steps[j])->0,
{
    let a = taken(steps[i])->0;
    assert(fetch_step_spec(states[i], true, mids[i], steps[i]));
    lemma_drain_pending_shrinks(states, mids, steps, 0, i);
    lemma_drain_pending_shrinks(states, mids, steps, i + 1, steps.len() as int);
    assert forall|e: u64| #[trigger] states[i + 1].pending().contains(e) implies a < e by {
        assert(states[i].pending().contains(e));
    }
    if i < j < steps.len() && taken(steps[j]) is Some {
        let b = taken(steps[j])->0;
        assert(fetch_step_spec(states[j], true, mids[j], steps[j]));
        assert(states[j].pending() != Set::<u64>::empty());
        lemma_drain_pending_shrinks(states, mids, steps, i + 1, j);
        assert(states[j].pending().contains(b));
    }
}

/// An epoch fetched with an empty result is neither pending nor cached after
/// it is stored, and a step that takes it again asks for it again.
pub proof fn lemma_empty_result_refetched(
    s0: LineMetadata,
    s1: LineMetadata,
    s2: LineMetadata,
    e: u64,
    blobs: Seq<BlobInfo>,
    s3: LineMetadata,
    s4: LineMetadata,
    r: FetchStep,
)
    requires
        fetch_step_spec(s0, true, s1, FetchStep::Fetch(e)),
        record_spec(s1, e, blobs, s2),
        blobs.len() == 0,
        s3.cache() == s2.cache(),
        is_least(s3.pending(), e),
        fetch_step_spec(s3, true, s4, r),
    ensures
        !s2.pending().contains(e),
        !s2.cache().contains_key(e),
        r == FetchStep::Fetch(e),
{
    assert(s3.pending() != Set::<u64>::empty()) by {
        assert(s3.pending().contains(e));
    }
    match r {
        FetchStep::Skipped(x) => {
            assert(x <= e && e <= x);
        },
        FetchStep::Fetch(x) => {
            assert(x <= e && e <= x);
        },
        FetchStep::Finished => {},
    }
}

/// A scan is a function of the cache, its arguments and the derivation: two
/// scans with the same arguments of one cache, under a derivation that gives
/// one result for each argument, return the same candidates and cursor.
pub proof fn lemma_scan_deterministic<F: Fn([u8; 32], u64, u64, [u8; 32], u32) -> [u8; 32]>(
    m: LineMetadata,
    start: u64,
    n: usize,
    task: SampleTask,
    derive: F,
    r1: (Vec<LineCandidate>, Option<u64>),
    r2: (Vec<LineCandidate>, Option<u64>),
)
    requires
        deterministic(derive),
        scan_spec(m, start, n, task, derive, r1),
        scan_spec(m, start, n, task, derive, r2),
    ensures
        r1.0@ == r2.0@,
        r1.1 == r2.1,
{
    if !(forall|e: u64| m.cache().contains_key(e) ==> e < start) {
        let sl = entries_slices(m.visited(start, n));
        let q1 = choose|qs: Seq<Word256>| all_derived(derive, task, sl, qs) && r1.0@ == select(sl, qs, task);
        let q2 = choose|qs: Seq<Word256>| all_derived(derive, task, sl, qs) && r2.0@ == select(sl, qs, task);
        lemma_select_deterministic(derive, task, sl, q1, q2);
    } else {
        assert(r1.0@ =~= r2.0@);
    }
}

} // verus!
