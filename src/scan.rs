use vstd::prelude::*;

use crate::line_metadata::EpochEntry;
use crate::types::{BlobInfo, LineCandidate, SampleTask, SliceIndex};
use crate::word::Word256;

verus! {

/// The coordinate of slice `index` of `blob` in `epoch`.
pub open spec fn slice_of(epoch: u64, blob: BlobInfo, index: u32) -> SliceIndex {
    SliceIndex {
        epoch,
        quorum_id: blob.quorum_id,
        storage_root: blob.storage_root,
        index: index as u64,
    }
}

/// The slices of one blob, in the order of its indices.
pub open spec fn blob_slices(epoch: u64, blob: BlobInfo) -> Seq<SliceIndex> {
    blob.indicies@.map_values(|index: u32| slice_of(epoch, blob, index))
}

/// The slices of the blobs of one epoch, blob after blob.
pub open spec fn blobs_slices(epoch: u64, blobs: Seq<BlobInfo>) -> Seq<SliceIndex>
    decreases blobs.len(),
{
    if blobs.len() == 0 {
        Seq::empty()
    } else {
        blobs_slices(epoch, blobs.drop_last()) + blob_slices(epoch, blobs.last())
    }
}

/// The slices of a run of cache entries, epoch after epoch.
pub open spec fn entries_slices(entries: Seq<EpochEntry>) -> Seq<SliceIndex>
    decreases entries.len(),
{
    if entries.len() == 0 {
        Seq::empty()
    } else {
        entries_slices(entries.drop_last()) + blobs_slices(
            entries.last().epoch,
            entries.last().blobs@,
        )
    }
}

/// `q` is a quality that `derive` returns for slice `s` under `task`.
pub open spec fn derived<F: Fn([u8; 32], u64, u64, [u8; 32], u32) -> [u8; 32]>(
    derive: F,
    task: SampleTask,
    s: SliceIndex,
    q: Word256,
) -> bool {
    derive.ensures((task.hash, s.epoch, s.quorum_id, s.storage_root, s.index as u32), q.bytes)
}

/// `qs` holds, position by position, a quality that `derive` returns for `slices`.
pub open spec fn all_derived<F: Fn([u8; 32], u64, u64, [u8; 32], u32) -> [u8; 32]>(
    derive: F,
    task: SampleTask,
    slices: Seq<SliceIndex>,
    qs: Seq<Word256>,
) -> bool {
    &&& qs.len() == slices.len()
    &&& forall|i: int| 0 <= i < slices.len() ==> derived(derive, task, slices[i], #[trigger] qs[i])
}

/// `derive` gives one result for each argument.
pub open spec fn deterministic<F: Fn([u8; 32], u64, u64, [u8; 32], u32) -> [u8; 32]>(
    derive: F,
) -> bool {
    forall|a: ([u8; 32], u64, u64, [u8; 32], u32), r1: [u8; 32], r2: [u8; 32]|
        #![trigger derive.ensures(a, r1), derive.ensures(a, r2)]
        derive.ensures(a, r1) && derive.ensures(a, r2) ==> r1 == r2
}

/// The candidates among `slices` whose quality in `qs` does not exceed the
/// task's threshold, in the order of `slices`.
pub open spec fn select(slices: Seq<SliceIndex>, qs: Seq<Word256>, task: SampleTask) -> Seq<
    LineCandidate,
>
    decreases slices.len(),
{
    if slices.len() == 0 {
        Seq::empty()
    } else {
        let rest = select(slices.drop_last(), qs.drop_last(), task);
        let q = qs.last();
        if q.value() <= task.quality.value() {
            rest.push(LineCandidate { slice: slices.last(), task, quality: q })
        } else {
            rest
        }
    }
}

pub(crate) proof fn lemma_select_push(
    slices: Seq<SliceIndex>,
    qs: Seq<Word256>,
    task: SampleTask,
    s: SliceIndex,
    q: Word256,
)
    ensures
        select(slices.push(s), qs.push(q), task) == if q.value() <= task.quality.value() {
            select(slices, qs, task).push(LineCandidate { slice: s, task, quality: q })
        } else {
            select(slices, qs, task)
        },
{
    assert(slices.push(s).drop_last() =~= slices);
    assert(qs.push(q).drop_last() =~= qs);
}

/// Each candidate that `select` returns is a slice of `slices` with its quality
/// at the same place in `qs`, and that quality does not exceed the threshold.
pub proof fn lemma_select_members(slices: Seq<SliceIndex>, qs: Seq<Word256>, task: SampleTask)
    requires
        qs.len() == slices.len(),
    ensures
        forall|c: LineCandidate| #[trigger] select(slices, qs, task).contains(c) ==> exists|p: int|
            0 <= p < slices.len() && c == (LineCandidate { slice: slices[p], task, quality: qs[p] })
                && qs[p].value() <= task.quality.value(),
    decreases slices.len(),
{
    if slices.len() > 0 {
        let (s0, q0) = (slices.drop_last(), qs.drop_last());
        lemma_select_members(s0, q0, task);
        assert forall|c: LineCandidate| #[trigger] select(slices, qs, task).contains(c) implies exists|p: int|
            0 <= p < slices.len() && c == (LineCandidate { slice: slices[p], task, quality: qs[p] })
                && qs[p].value() <= task.quality.value() by {
            let r = select(s0, q0, task);
            if r.contains(c) {
                let p = choose|p: int|
                    0 <= p < s0.len() && c == (LineCandidate { slice: s0[p], task, quality: q0[p] })
                        && q0[p].value() <= task.quality.value();
                assert(slices[p] == s0[p] && qs[p] == q0[p]);
            } else {
                let k = choose|k: int| 0 <= k < select(slices, qs, task).len() && select(slices, qs, task)[k] == c;
                assert(k == r.len());
                assert(c == (LineCandidate { slice: slices[slices.len() - 1], task, quality: qs[qs.len() - 1] }));
            }
        }
    }
}

/// Each slice of `slices` whose quality in `qs` does not exceed the threshold
/// is among the candidates that `select` returns.
pub proof fn lemma_select_includes(
    slices: Seq<SliceIndex>,
    qs: Seq<Word256>,
    task: SampleTask,
    p: int,
)
    requires
        qs.len() == slices.len(),
        0 <= p < slices.len(),
        qs[p].value() <= task.quality.value(),
    ensures
        select(slices, qs, task).contains(LineCandidate { slice: slices[p], task, quality: qs[p] }),
    decreases slices.len(),
{
    let c = LineCandidate { slice: slices[p], task, quality: qs[p] };
    let r = select(slices.drop_last(), qs.drop_last(), task);
    if p == slices.len() - 1 {
        assert(select(slices, qs, task) == r.push(c));
        assert(r.push(c)[r.len() as int] == c);
    } else {
        lemma_select_includes(slices.drop_last(), qs.drop_last(), task, p);
        let k = choose|k: int| 0 <= k < r.len() && r[k] == c;
        if qs.last().value() <= task.quality.value() {
            let l = LineCandidate { slice: slices.last(), task, quality: qs.last() };
            assert(select(slices, qs, task) == r.push(l));
            assert(r.push(l)[k] == c);
        }
    }
}

/// Raising the threshold keeps every candidate: what a task selects, a task
/// with the same hash and a threshold at least as high selects too.
pub proof fn lemma_threshold_monotone(
    slices: Seq<SliceIndex>,
    qs: Seq<Word256>,
    t1: SampleTask,
    t2: SampleTask,
)
    requires
        qs.len() == slices.len(),
        t1.quality.value() <= t2.quality.value(),
    ensures
        forall|c: LineCandidate| #[trigger] select(slices, qs, t1).contains(c) ==> select(
            slices,
            qs,
            t2,
        ).contains(LineCandidate { slice: c.slice, task: t2, quality: c.quality }),
{
    lemma_select_members(slices, qs, t1);
    assert forall|c: LineCandidate| #[trigger] select(slices, qs, t1).contains(c) implies select(
        slices,
        qs,
        t2,
    ).contains(LineCandidate { slice: c.slice, task: t2, quality: c.quality }) by {
        let p = choose|p: int|
            0 <= p < slices.len() && c == (LineCandidate { slice: slices[p], task: t1, quality: qs[p] })
                && qs[p].value() <= t1.quality.value();
        lemma_select_includes(slices, qs, t2, p);
    }
}

/// Slice `x` of blob `b` of an entry of `entries` is among `entries_slices(entries)`.
pub proof fn lemma_slice_scanned(entries: Seq<EpochEntry>, i: int, b: int, x: int)
    requires
        0 <= i < entries.len(),
        0 <= b < entries[i].blobs@.len(),
        0 <= x < entries[i].blobs@[b].indicies@.len(),
    ensures
        entries_slices(entries).contains(
            slice_of(entries[i].epoch, entries[i].blobs@[b], entries[i].blobs@[b].indicies@[x]),
        ),
    decreases entries.len(),
{
    let e = entries[i];
    let sl = slice_of(e.epoch, e.blobs@[b], e.blobs@[b].indicies@[x]);
    let prefix = entries_slices(entries.drop_last());
    if i < entries.len() - 1 {
        lemma_slice_scanned(entries.drop_last(), i, b, x);
        assert(entries.drop_last()[i] == e);
        let k = choose|k: int| 0 <= k < prefix.len() && prefix[k] == sl;
        assert(entries_slices(entries)[k] == sl);
    } else {
        lemma_blob_slice_scanned(e.epoch, e.blobs@, b, x);
        let tail = blobs_slices(e.epoch, e.blobs@);
        let k = choose|k: int| 0 <= k < tail.len() && tail[k] == sl;
        assert(entries_slices(entries)[prefix.len() + k] == sl);
    }
}

proof fn lemma_blob_slice_scanned(epoch: u64, blobs: Seq<BlobInfo>, b: int, x: int)
    requires
        0 <= b < blobs.len(),
        0 <= x < blobs[b].indicies@.len(),
    ensures
        blobs_slices(epoch, blobs).contains(slice_of(epoch, blobs[b], blobs[b].indicies@[x])),
    decreases blobs.len(),
{
    let sl = slice_of(epoch, blobs[b], blobs[b].indicies@[x]);
    let prefix = blobs_slices(epoch, blobs.drop_last());
    if b < blobs.len() - 1 {
        lemma_blob_slice_scanned(epoch, blobs.drop_last(), b, x);
        assert(blobs.drop_last()[b] == blobs[b]);
        let k = choose|k: int| 0 <= k < prefix.len() && prefix[k] == sl;
        assert(blobs_slices(epoch, blobs)[k] == sl);
    } else {
        assert(blob_slices(epoch, blobs[b])[x] == sl);
        assert(blobs_slices(epoch, blobs)[prefix.len() + x] == sl);
    }
}

/// Under a derivation that gives one result for each argument, the qualities
/// of a run of slices are fixed, and so are the candidates selected from them.
pub proof fn lemma_select_deterministic<F: Fn([u8; 32], u64, u64, [u8; 32], u32) -> [u8; 32]>(
    derive: F,
    task: SampleTask,
    slices: Seq<SliceIndex>,
    q1: Seq<Word256>,
    q2: Seq<Word256>,
)
    requires
        deterministic(derive),
        all_derived(derive, task, slices, q1),
        all_derived(derive, task, slices, q2),
    ensures
        q1 == q2,
        select(slices, q1, task) == select(slices, q2, task),
{
    assert forall|i: int| 0 <= i < q1.len() implies q1[i] == q2[i] by {
        assert(derived(derive, task, slices[i], q1[i]));
        assert(derived(derive, task, slices[i], q2[i]));
        assert(q1[i].bytes == q2[i].bytes);
    }
    assert(q1 =~= q2);
}

/// The threshold is inclusive: a slice whose quality equals the task's threshold
/// is selected, and one whose quality is one above it is not.
pub proof fn lemma_threshold_inclusive(s: SliceIndex, q: Word256, task: SampleTask)
    ensures
        q.value() == task.quality.value() ==> select(seq![s], seq![q], task) == seq![
            LineCandidate { slice: s, task, quality: q },
        ],
        q.value() == task.quality.value() + 1 ==> select(seq![s], seq![q], task) == Seq::<
            LineCandidate,
        >::empty(),
{
    lemma_select_push(Seq::empty(), Seq::empty(), task, s, q);
    assert(Seq::<SliceIndex>::empty().push(s) =~= seq![s]);
    assert(Seq::<Word256>::empty().push(q) =~= seq![q]);
    assert(Seq::<LineCandidate>::empty().push(LineCandidate { slice: s, task, quality: q }) =~= seq![
        LineCandidate { slice: s, task, quality: q },
    ]);
}

} // verus!
