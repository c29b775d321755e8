use vstd::prelude::*;

verus! {

/// `256^n`.
pub open spec fn pow256(n: nat) -> nat
    decreases n,
{
    if n == 0 {
        1
    } else {
        256 * pow256((n - 1) as nat)
    }
}

/// The unsigned integer whose big-endian encoding is `s`.
pub open spec fn be_value(s: Seq<u8>) -> nat
    decreases s.len(),
{
    if s.len() == 0 {
        0
    } else {
        s[0] as nat * pow256((s.len() - 1) as nat) + be_value(s.subrange(1, s.len() as int))
    }
}

proof fn lemma_pow256_positive(n: nat)
    ensures
        pow256(n) > 0,
    decreases n,
{
    if n > 0 {
        lemma_pow256_positive((n - 1) as nat);
    }
}

/// A big-endian encoding of `n` bytes stays below `256^n`.
pub proof fn lemma_be_value_bound(s: Seq<u8>)
    ensures
        be_value(s) < pow256(s.len()),
    decreases s.len(),
{
    if s.len() > 0 {
        let rest = s.subrange(1, s.len() as int);
        lemma_be_value_bound(rest);
        let p = pow256((s.len() - 1) as nat);
        let h = s[0] as nat;
        let r = be_value(rest);
        assert(h <= 255);
        assert(h * p + r < 256 * p) by (nonlinear_arith)
            requires
                h <= 255,
                r < p,
        ;
    }
}

/// An encoding whose bytes are all `0xff` stands for the largest value of its
/// length, and one whose bytes are all zero stands for zero.
pub proof fn lemma_extreme_values(s: Seq<u8>)
    ensures
        (forall|i: int| 0 <= i < s.len() ==> s[i] == 0xffu8) ==> be_value(s) + 1 == pow256(s.len()),
        (forall|i: int| 0 <= i < s.len() ==> s[i] == 0u8) ==> be_value(s) == 0,
    decreases s.len(),
{
    if s.len() > 0 {
        let rest = s.subrange(1, s.len() as int);
        lemma_extreme_values(rest);
        if forall|i: int| 0 <= i < s.len() ==> s[i] == 0xffu8 {
            assert forall|i: int| 0 <= i < rest.len() implies rest[i] == 0xffu8 by {
                assert(rest[i] == s[i + 1]);
            }
            let p = pow256((s.len() - 1) as nat);
            assert(255 * p + (p - 1) + 1 == 256 * p) by (nonlinear_arith);
        }
        if forall|i: int| 0 <= i < s.len() ==> s[i] == 0u8 {
            assert forall|i: int| 0 <= i < rest.len() implies rest[i] == 0u8 by {
                assert(rest[i] == s[i + 1]);
            }
        }
    }
}

/// Comparing two encodings of equal length byte by byte, from the first byte,
/// orders them as their values: the first differing byte decides.
pub proof fn lemma_first_difference_decides(a: Seq<u8>, b: Seq<u8>, i: int)
    requires
        a.len() == b.len(),
        0 <= i < a.len(),
        a.subrange(0, i) == b.subrange(0, i),
        a[i] < b[i],
    ensures
        be_value(a) < be_value(b),
    decreases i,
{
    let n = a.len();
    let ra = a.subrange(1, n as int);
    let rb = b.subrange(1, n as int);
    let p = pow256((n - 1) as nat);
    if i == 0 {
        lemma_be_value_bound(ra);
        let ha = a[0] as nat;
        let hb = b[0] as nat;
        let va = be_value(ra);
        let vb = be_value(rb);
        assert(ha * p + va < hb * p + vb) by (nonlinear_arith)
            requires
                ha < hb,
                va < p,
        ;
    } else {
        assert(a[0] == a.subrange(0, i)[0]);
        assert(b[0] == b.subrange(0, i)[0]);
        assert(ra.subrange(0, i - 1) =~= rb.subrange(0, i - 1)) by {
            assert forall|k: int| 0 <= k < i - 1 implies #[trigger] ra[k] == rb[k] by {
                assert(a.subrange(0, i)[k + 1] == b.subrange(0, i)[k + 1]);
                assert(a.subrange(0, i)[k + 1] == a[k + 1]);
                assert(b.subrange(0, i)[k + 1] == b[k + 1]);
                assert(ra[k] == a[k + 1]);
                assert(rb[k] == b[k + 1]);
            }
        }
        assert(ra[i - 1] < rb[i - 1]);
        lemma_first_difference_decides(ra, rb, i - 1);
    }
}

/// An unsigned 256-bit integer, held as its big-endian encoding.
#[derive(Clone, Copy, Debug)]
pub struct Word256 {
    pub bytes: [u8; 32],
}

impl Word256 {
    /// The integer that the word stands for.
    pub open spec fn value(&self) -> nat {
        be_value(self.bytes@)
    }

    /// The word whose big-endian encoding is `bytes`.
    pub fn from_big_endian(bytes: [u8; 32]) -> (r: Word256)
        ensures
            r == (Word256 { bytes }),
            r.value() == be_value(bytes@),
    {
        Word256 { bytes }
    }

    /// The big-endian encoding of the word.
    pub fn to_big_endian(&self) -> (r: [u8; 32])
        ensures
            r == self.bytes,
            be_value(r@) == self.value(),
    {
        self.bytes
    }

    /// Whether the word is at most `other`, read as unsigned integers.
    pub fn le(&self, other: &Word256) -> (r: bool)
        ensures
            r == (self.value() <= other.value()),
    {
        bytes_le(&self.bytes, &other.bytes)
    }
}

/// Whether the big-endian encoding `a` stands for an integer at most that of `b`,
/// decided by comparing the bytes in order.
pub fn bytes_le(a: &[u8; 32], b: &[u8; 32]) -> (r: bool)
    ensures
        r == (be_value(a@) <= be_value(b@)),
{
    let mut i: usize = 0;
    while i < 32
        invariant
            0 <= i <= 32,
            a@.len() == 32,
            b@.len() == 32,
            a@.subrange(0, i as int) == b@.subrange(0, i as int),
        decreases 32 - i,
    {
        if a[i] < b[i] {
            proof {
                lemma_first_difference_decides(a@, b@, i as int);
            }
            return true;
        }
        if a[i] > b[i] {
            proof {
                lemma_first_difference_decides(b@, a@, i as int);
            }
            return false;
        }
        assert(a@.subrange(0, i + 1) =~= b@.subrange(0, i + 1)) by {
            assert forall|k: int| 0 <= k < i implies #[trigger] a@[k] == b@[k] by {
                assert(a@.subrange(0, i as int)[k] == b@.subrange(0, i as int)[k]);
            }
        }
        i = i + 1;
    }
    assert(a@ =~= a@.subrange(0, 32));
    assert(b@ =~= b@.subrange(0, 32));
    true
}

} // verus!
