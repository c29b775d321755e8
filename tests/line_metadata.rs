use da_miner::{bytes_le, BlobInfo, FetchStep, LineCandidate, LineMetadata, SampleTask, Word256};

const ROOT: [u8; 32] = [7u8; 32];

/// A stand-in for the quality derivation: deterministic and spread over the
/// whole range, with no zero result for the inputs used here.
fn derive(hash: [u8; 32], epoch: u64, quorum_id: u64, root: [u8; 32], index: u32) -> [u8; 32] {
    let mut out = [0u8; 32];
    let mut acc: u64 = 0x9e37_79b9_7f4a_7c15;
    for k in 0..32 {
        acc = acc
            .wrapping_mul(6364136223846793005)
            .wrapping_add(hash[k] as u64 ^ root[k] as u64)
            .wrapping_add(epoch.rotate_left(k as u32))
            .wrapping_add(quorum_id.wrapping_mul(31))
            .wrapping_add(index as u64 * 1_000_003);
        out[k] = (acc >> 56) as u8 | 1;
    }
    out
}

fn blob(quorum_id: u64, indicies: Vec<u32>) -> BlobInfo {
    BlobInfo { quorum_id, storage_root: ROOT, indicies }
}

fn task(quality: [u8; 32]) -> SampleTask {
    SampleTask { hash: [3u8; 32], quality: Word256::from_big_endian(quality) }
}

/// Drains the pending epochs with no deadline, fetching from `source`, and
/// returns the epochs that were asked for, in order.
fn drain(m: &mut LineMetadata, source: &dyn Fn(u64) -> Vec<BlobInfo>) -> Vec<u64> {
    let mut asked = Vec::new();
    loop {
        match m.fetch_step(true) {
            FetchStep::Finished => break,
            FetchStep::Skipped(_) => {}
            FetchStep::Fetch(e) => {
                asked.push(e);
                m.record_epoch(e, source(e));
            }
        }
    }
    asked
}

fn cache_with_epoch_10() -> LineMetadata {
    let mut m = LineMetadata::new();
    m.new_epoch(10);
    drain(&mut m, &|_| vec![blob(1, vec![0, 1, 2])]);
    m
}

fn indices_of(c: &[LineCandidate]) -> Vec<u64> {
    c.iter().map(|x| x.slice.index).collect()
}

#[test]
fn scan_accepting_everything_returns_each_slice() {
    let m = cache_with_epoch_10();
    let (c, cursor) = m.iter_next_epoch(10, 1, task([0xff; 32]), derive);
    assert_eq!(indices_of(&c), vec![0, 1, 2]);
    assert_eq!(cursor, Some(10));
    for x in &c {
        assert_eq!(x.slice.epoch, 10);
        assert_eq!(x.slice.quorum_id, 1);
        assert_eq!(x.slice.storage_root, ROOT);
        assert_eq!(x.task.hash, [3u8; 32]);
        assert_eq!(x.quality.bytes, derive([3u8; 32], 10, 1, ROOT, x.slice.index as u32));
    }
}

#[test]
fn scan_past_the_last_cached_epoch_returns_nothing() {
    let m = cache_with_epoch_10();
    let (c, cursor) = m.iter_next_epoch(11, 1, task([0xff; 32]), derive);
    assert!(c.is_empty());
    assert_eq!(cursor, None);
}

#[test]
fn scan_with_zero_threshold_still_advances() {
    let m = cache_with_epoch_10();
    let (c, cursor) = m.iter_next_epoch(10, 1, task([0; 32]), derive);
    assert!(c.is_empty());
    assert_eq!(cursor, Some(10));
}

#[test]
fn scan_of_empty_cache_returns_nothing() {
    let m = LineMetadata::new();
    let (c, cursor) = m.iter_next_epoch(0, 5, task([0xff; 32]), derive);
    assert!(c.is_empty());
    assert_eq!(cursor, None);
}

#[test]
fn repeated_enqueue_caches_epoch_once() {
    let mut m = LineMetadata::new();
    m.new_epoch(4);
    m.new_epoch(4);
    m.new_epoch_range(&[4, 4]);
    let asked = drain(&mut m, &|_| vec![blob(2, vec![5])]);
    assert_eq!(asked, vec![4]);
    assert_eq!(m.cached_epochs(), vec![4]);
    m.new_epoch(4);
    let asked = drain(&mut m, &|_| vec![blob(2, vec![5])]);
    assert!(asked.is_empty());
    assert_eq!(m.cached_epochs(), vec![4]);
}

#[test]
fn drain_asks_in_ascending_order() {
    let mut m = LineMetadata::new();
    m.new_epoch_range(&[5, 1, 3]);
    let asked = drain(&mut m, &|_| vec![blob(1, vec![0])]);
    assert_eq!(asked, vec![1, 3, 5]);
    assert_eq!(m.cached_epochs(), vec![1, 3, 5]);
    assert!(!m.needs_fetch());
}

#[test]
fn empty_result_is_not_cached_and_is_fetched_again() {
    let mut m = LineMetadata::new();
    m.new_epoch(8);
    assert!(m.needs_fetch());
    let asked = drain(&mut m, &|_| Vec::new());
    assert_eq!(asked, vec![8]);
    assert!(!m.needs_fetch());
    assert!(!m.contains_epoch(8));
    assert!(m.cached_epochs().is_empty());
    m.new_epoch(8);
    let asked = drain(&mut m, &|_| Vec::new());
    assert_eq!(asked, vec![8]);
}

#[test]
fn step_after_deadline_does_nothing() {
    let mut m = LineMetadata::new();
    m.new_epoch(2);
    assert_eq!(m.fetch_step(false), FetchStep::Finished);
    assert!(m.needs_fetch());
    assert_eq!(m.fetch_step(true), FetchStep::Fetch(2));
    assert!(!m.needs_fetch());
}

#[test]
fn step_skips_a_cached_epoch() {
    let mut m = cache_with_epoch_10();
    m.new_epoch(10);
    m.new_epoch(12);
    assert_eq!(m.fetch_step(true), FetchStep::Skipped(10));
    assert_eq!(m.fetch_step(true), FetchStep::Fetch(12));
    assert_eq!(m.fetch_step(true), FetchStep::Finished);
}

#[test]
fn failed_fetch_leaves_epoch_off_pending_and_keeps_progress() {
    let mut m = LineMetadata::new();
    m.new_epoch_range(&[1, 2]);
    assert_eq!(m.fetch_step(true), FetchStep::Fetch(1));
    m.record_epoch(1, vec![blob(1, vec![0])]);
    // the source fails for epoch 2: nothing is recorded
    assert_eq!(m.fetch_step(true), FetchStep::Fetch(2));
    assert!(!m.needs_fetch());
    assert_eq!(m.cached_epochs(), vec![1]);
}

#[test]
fn scan_is_deterministic() {
    let mut m = LineMetadata::new();
    m.new_epoch_range(&[1, 2, 3]);
    drain(&mut m, &|e| vec![blob(e, vec![0, 1, 2, 3]), blob(e + 10, vec![9])]);
    let mut threshold = [0u8; 32];
    threshold[0] = 0x80;
    let t = task(threshold);
    let (a, ca) = m.iter_next_epoch(1, 3, t, derive);
    let (b, cb) = m.iter_next_epoch(1, 3, t, derive);
    assert_eq!(ca, cb);
    assert_eq!(ca, Some(3));
    assert_eq!(a.len(), b.len());
    for (x, y) in a.iter().zip(b.iter()) {
        assert_eq!(x.slice.epoch, y.slice.epoch);
        assert_eq!(x.slice.quorum_id, y.slice.quorum_id);
        assert_eq!(x.slice.index, y.slice.index);
        assert_eq!(x.quality.bytes, y.quality.bytes);
    }
    for x in &a {
        assert!(x.quality.bytes[0] <= 0x80);
    }
}

fn fixed(value: [u8; 32]) -> impl Fn([u8; 32], u64, u64, [u8; 32], u32) -> [u8; 32] {
    move |_, _, _, _, _| value
}

#[test]
fn threshold_is_inclusive() {
    let m = cache_with_epoch_10();
    let mut q = [0u8; 32];
    q[30] = 0x12;
    q[31] = 0xff;
    let (c, _) = m.iter_next_epoch(10, 1, task(q), fixed(q));
    assert_eq!(c.len(), 3);
    let mut above = q;
    above[30] = 0x13;
    above[31] = 0x00;
    let (c, cursor) = m.iter_next_epoch(10, 1, task(q), fixed(above));
    assert!(c.is_empty());
    assert_eq!(cursor, Some(10));
}

#[test]
fn cursor_advances_over_epochs_without_candidates() {
    let mut m = LineMetadata::new();
    m.new_epoch_range(&[20, 21, 22]);
    drain(&mut m, &|_| vec![blob(1, vec![0, 1])]);
    let (c, cursor) = m.iter_next_epoch(20, 2, task([0; 32]), derive);
    assert!(c.is_empty());
    assert_eq!(cursor, Some(21));
}

#[test]
fn batch_counts_epochs_not_slices() {
    let mut m = LineMetadata::new();
    m.new_epoch_range(&[1, 4, 9]);
    drain(&mut m, &|e| vec![blob(1, vec![0, 1, 2]), blob(2, vec![e as u32])]);
    let (c, cursor) = m.iter_next_epoch(2, 2, task([0xff; 32]), derive);
    assert_eq!(c.len(), 8);
    assert_eq!(cursor, Some(9));
    assert!(c.iter().all(|x| x.slice.epoch == 4 || x.slice.epoch == 9));
    assert!(c.windows(2).all(|w| w[0].slice.epoch <= w[1].slice.epoch));
    let (c, cursor) = m.iter_next_epoch(0, 10, task([0xff; 32]), derive);
    assert_eq!(c.len(), 12);
    assert_eq!(cursor, Some(9));
}

#[test]
fn zero_batch_visits_nothing() {
    let m = cache_with_epoch_10();
    let (c, cursor) = m.iter_next_epoch(10, 0, task([0xff; 32]), derive);
    assert!(c.is_empty());
    assert_eq!(cursor, Some(0));
}

#[test]
fn byte_order_matches_numeric_order() {
    let mut a = [0u8; 32];
    let mut b = [0u8; 32];
    a[30] = 1;
    b[31] = 255;
    assert!(!bytes_le(&a, &b));
    assert!(bytes_le(&b, &a));
    assert!(bytes_le(&a, &a));
    a[0] = 1;
    b = [0xff; 32];
    b[0] = 0;
    assert!(!bytes_le(&a, &b));
    let w = Word256::from_big_endian([9u8; 32]);
    assert_eq!(w.to_big_endian(), [9u8; 32]);
    assert!(w.le(&Word256::from_big_endian([0xff; 32])));
    assert!(!Word256::from_big_endian([0xff; 32]).le(&w));
}

#[test]
fn candidate_holds_its_parts() {
    let m = cache_with_epoch_10();
    let (c, _) = m.iter_next_epoch(10, 1, task([0xff; 32]), derive);
    let x = LineCandidate::new(c[1].slice, c[1].task, c[1].quality);
    assert_eq!(x.slice.index, 1);
    assert_eq!(x.quality.bytes, c[1].quality.bytes);
}

#[test]
fn equal_blobs_of_an_epoch_are_stored_once() {
    let mut m = LineMetadata::new();
    m.new_epoch(6);
    drain(&mut m, &|_| vec![blob(1, vec![0, 1]), blob(2, vec![0]), blob(1, vec![0, 1])]);
    let (c, cursor) = m.iter_next_epoch(6, 1, task([0xff; 32]), derive);
    assert_eq!(cursor, Some(6));
    let coords: Vec<(u64, u64)> = c.iter().map(|x| (x.slice.quorum_id, x.slice.index)).collect();
    assert_eq!(coords, vec![(1, 0), (1, 1), (2, 0)]);
}

#[test]
fn blobs_compare_by_all_fields() {
    let a = blob(1, vec![0, 1]);
    assert!(a.same_as(&blob(1, vec![0, 1])));
    assert!(!a.same_as(&blob(2, vec![0, 1])));
    assert!(!a.same_as(&blob(1, vec![0, 2])));
    assert!(!a.same_as(&blob(1, vec![0])));
    let mut other_root = blob(1, vec![0, 1]);
    other_root.storage_root[31] = 0;
    assert!(!a.same_as(&other_root));
}

#[test]
fn recording_a_cached_epoch_keeps_its_entry() {
    let mut m = cache_with_epoch_10();
    m.record_epoch(10, vec![blob(9, vec![4])]);
    let (c, cursor) = m.iter_next_epoch(10, 1, task([0xff; 32]), derive);
    assert_eq!(indices_of(&c), vec![0, 1, 2]);
    assert!(c.iter().all(|x| x.slice.quorum_id == 1));
    assert_eq!(cursor, Some(10));
    assert_eq!(m.cached_epochs(), vec![10]);
}

#[test]
fn resuming_after_the_cursor_covers_the_same_epochs() {
    let mut m = LineMetadata::new();
    m.new_epoch_range(&[2, 5, 7, 11]);
    drain(&mut m, &|e| vec![blob(e, vec![0, 1])]);
    let t = task([0xff; 32]);
    let (first, c) = m.iter_next_epoch(3, 2, t, derive);
    assert_eq!(c, Some(7));
    let (second, k) = m.iter_next_epoch(8, 1, t, derive);
    assert_eq!(k, Some(11));
    let (whole, kw) = m.iter_next_epoch(3, 3, t, derive);
    assert_eq!(kw, Some(11));
    let joined: Vec<(u64, u64)> =
        first.iter().chain(second.iter()).map(|x| (x.slice.epoch, x.slice.index)).collect();
    let all: Vec<(u64, u64)> = whole.iter().map(|x| (x.slice.epoch, x.slice.index)).collect();
    assert_eq!(joined, all);
    assert_eq!(all, vec![(5, 0), (5, 1), (7, 0), (7, 1), (11, 0), (11, 1)]);
}
