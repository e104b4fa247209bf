//! The content-addressable store: blobs keyed by their content digest, with
//! the integrity check applied before every insertion.

use vstd::prelude::*;
use vstd::map::*;
use crate::digest::{Digest, DigestView};
use crate::error::CasError;
use crate::hashing::{compute_digest, spec_digest_of};

verus! {

/// A blob store addressed by content digest.
///
/// `contents` is the mathematical value of the store: the map from digest to
/// stored bytes.  `wf` is the store's integrity invariant; every method
/// preserves it, and under it every stored pair satisfies
/// `digest == spec_digest_of(bytes)`.
pub trait ContentAddressableStorage: Sized {
    spec fn contents(&self) -> Map<DigestView, Seq<u8>>;

    spec fn wf(&self) -> bool;

    /// Computes the digest of `data`; when a claimed digest is supplied and
    /// disagrees, rejects the write without changing the store, else inserts
    /// the blob under its computed digest.
    fn write_blob(&mut self, data: &[u8], expected_digest: Option<Digest>) -> (r: Result<
        Digest,
        CasError,
    >)
        requires
            old(self).wf(),
            data@.len() <= i64::MAX as int,
        ensures
            final(self).wf(),
            r is Ok <==> (expected_digest matches Some(e) ==> e@ == spec_digest_of(data@)),
            match r {
                Ok(d) => {
                    &&& d@ == spec_digest_of(data@)
                    &&& final(self).contents() == old(self).contents().insert(
                        spec_digest_of(data@),
                        data@,
                    )
                },
                Err(err) => {
                    &&& err matches CasError::InvalidDigest(actual, claimed)
                    &&& (err matches CasError::InvalidDigest(actual, claimed) ==> {
                        &&& actual@ == spec_digest_of(data@)
                        &&& expected_digest matches Some(e) && claimed@ == e@
                    })
                    &&& final(self).contents() == old(self).contents()
                },
            },
    ;

    /// Returns the exact bytes stored under the digest, or signals that no
    /// blob is stored there.
    fn read_blob(&self, digest: Digest) -> (r: Result<Vec<u8>, CasError>)
        requires
            self.wf(),
        ensures
            r is Ok <==> self.contents().contains_key(digest@),
            match r {
                Ok(b) => {
                    &&& b@ == self.contents()[digest@]
                    &&& digest@ == spec_digest_of(b@)
                    &&& b@.len() == digest@.size_bytes
                },
                Err(err) => err matches CasError::BlobNotFound(d) && d@ == digest@,
            },
    ;

    /// Membership test; never fails on a well-formed store.
    fn has_blob(&self, digest: &Digest) -> (r: Result<bool, CasError>)
        requires
            self.wf(),
        ensures
            r matches Ok(present) && present == self.contents().contains_key(digest@),
    ;
}

/// No two entries share a digest.
pub open spec fn unique_keys(s: Seq<(Digest, Vec<u8>)>) -> bool {
    forall|i: int, j: int| 0 <= i < j < s.len() ==> (#[trigger] s[i]).0@ != (#[trigger] s[j]).0@
}

/// The map a sequence of entries denotes: later entries shadow earlier ones.
pub open spec fn store_map(s: Seq<(Digest, Vec<u8>)>) -> Map<DigestView, Seq<u8>>
    decreases s.len(),
{
    if s.len() == 0 {
        Map::empty()
    } else {
        store_map(s.drop_last()).insert(s.last().0@, s.last().1@)
    }
}

/// On a uniquely-keyed entry list, the denoted map holds exactly the listed
/// pairs.
pub proof fn lemma_store_map_characterize(s: Seq<(Digest, Vec<u8>)>)
    requires
        unique_keys(s),
    ensures
        forall|k: DigestView|
            store_map(s).contains_key(k) <==> exists|i: int|
                0 <= i < s.len() && (#[trigger] s[i]).0@ == k,
        forall|i: int|
            0 <= i < s.len() ==> store_map(s).contains_key((#[trigger] s[i]).0@) && store_map(s)[
                s[i].0@
            ] == s[i].1@,
    decreases s.len(),
{
    if s.len() > 0 {
        let p = s.drop_last();
        assert(unique_keys(p)) by {
            assert(forall|i: int| 0 <= i < p.len() ==> p[i] == s[i]);
        }
        lemma_store_map_characterize(p);
        assert(forall|i: int| 0 <= i < p.len() ==> p[i] == s[i]);
        assert forall|k: DigestView| store_map(s).contains_key(k) implies exists|i: int|
            0 <= i < s.len() && (#[trigger] s[i]).0@ == k by {
            if k == s.last().0@ {
                assert((s[s.len() - 1]).0@ == k);
            } else {
                assert(store_map(s) == store_map(p).insert(s.last().0@, s.last().1@));
                assert(store_map(p).contains_key(k));
                let i = choose|i: int| 0 <= i < p.len() && (#[trigger] p[i]).0@ == k;
                assert(p[i] == s[i]);
                assert((s[i]).0@ == k);
            }
        }
    }
}

/// Writing a blob is idempotent: both of two successive unconditional writes
/// of the same bytes return the content digest (by `write_blob`'s contract),
/// the second write leaves the store exactly as the first did, and the blob
/// is present after either.
pub proof fn lemma_write_blob_idempotent(m: Map<DigestView, Seq<u8>>, data: Seq<u8>)
    ensures
        m.insert(spec_digest_of(data), data).insert(spec_digest_of(data), data) == m.insert(
            spec_digest_of(data),
            data,
        ),
        m.insert(spec_digest_of(data), data).contains_key(spec_digest_of(data)),
{
    let once = m.insert(spec_digest_of(data), data);
    assert(once.insert(spec_digest_of(data), data) =~= once);
}

/// An in-memory store: the reference storage backend.  The backing list is
/// keyed uniquely by digest, and every entry respects the integrity
/// invariant.
pub struct InMemory {
    entries: Vec<(Digest, Vec<u8>)>,
}

impl InMemory {
    /// Index of the entry stored under a digest, if any.
    fn position_of(&self, digest: &Digest) -> (r: Option<usize>)
        ensures
            match r {
                Some(i) => i < self.entries@.len() && self.entries@[i as int].0@ == digest@,
                None => forall|j: int|
                    0 <= j < self.entries@.len() ==> (#[trigger] self.entries@[j]).0@ != digest@,
            },
    {
        let n = self.entries.len();
        let mut i: usize = 0;
        while i < n
            invariant
                n == self.entries@.len(),
                0 <= i <= n,
                forall|j: int| 0 <= j < i ==> (#[trigger] self.entries@[j]).0@ != digest@,
            decreases n - i,
        {
            if self.entries[i].0 == *digest {
                return Some(i);
            }
            i = i + 1;
        }
        None
    }
}

impl Default for InMemory {
    /// An empty store.
    fn default() -> (r: Self)
        ensures
            r.contents() == Map::<DigestView, Seq<u8>>::empty(),
            r.wf(),
    {
        InMemory { entries: Vec::new() }
    }
}

impl ContentAddressableStorage for InMemory {
    closed spec fn contents(&self) -> Map<DigestView, Seq<u8>> {
        store_map(self.entries@)
    }

    closed spec fn wf(&self) -> bool {
        &&& unique_keys(self.entries@)
        &&& forall|i: int|
            0 <= i < self.entries@.len() ==> (#[trigger] self.entries@[i]).0@ == spec_digest_of(
                self.entries@[i].1@,
            )
    }

    fn write_blob(&mut self, data: &[u8], expected_digest: Option<Digest>) -> (r: Result<
        Digest,
        CasError,
    >) {
        let actual = compute_digest(data);
        if let Some(claimed) = expected_digest {
            if !(actual == claimed) {
                return Err(CasError::InvalidDigest(actual, claimed));
            }
        }
        let bytes = vstd::slice::slice_to_vec(data);
        proof {
            lemma_store_map_characterize(self.entries@);
        }
        match self.position_of(&actual) {
            Some(i) => {
                let ghost s0 = self.entries@;
                let _ = self.entries.remove(i);
                self.entries.push((actual.clone(), bytes));
                proof {
                    let s1 = s0.remove(i as int);
                    assert(forall|j: int| 0 <= j < i ==> #[trigger] s1[j] == s0[j]);
                    assert(forall|j: int| i <= j < s1.len() ==> #[trigger] s1[j] == s0[j + 1]);
                    assert(unique_keys(s1));
                    let s2 = self.entries@;
                    assert(s2.drop_last() =~= s1);
                    assert(s2.last().0@ == actual@);
                    assert(s2.last().1@ == data@);
                    assert(forall|j: int| 0 <= j < s1.len() ==> (#[trigger] s1[j]).0@ != actual@);
                    assert(forall|j: int| 0 <= j < s2.len() - 1 ==> #[trigger] s2[j] == s1[j]);
                    assert(unique_keys(s2));
                    lemma_store_map_characterize(s0);
                    lemma_store_map_characterize(s1);
                    lemma_store_map_characterize(s2);
                    assert(store_map(s2) == store_map(s1).insert(actual@, data@));
                    let target = store_map(s0).insert(spec_digest_of(data@), data@);
                    assert_maps_equal!(store_map(s2), target, k => {
                        if k != actual@ {
                            if target.contains_key(k) {
                                assert(store_map(s0).contains_key(k));
                                let m = choose|m: int|
                                    0 <= m < s0.len() && (#[trigger] s0[m]).0@ == k;
                                assert(m != i);
                                if m < i {
                                    assert(s1[m] == s0[m]);
                                    assert(s1[m].0@ == k);
                                } else {
                                    assert(s1[m - 1] == s0[m]);
                                    assert(s1[m - 1].0@ == k);
                                }
                                assert(store_map(s1).contains_key(k));
                                let n = choose|n: int|
                                    0 <= n < s1.len() && (#[trigger] s1[n]).0@ == k;
                                assert(store_map(s1)[k] == s1[n].1@);
                                assert(store_map(s0)[k] == s0[m].1@);
                                assert(s1[n] == s0[if n < i { n } else { n + 1 }]);
                                assert(s0[if n < i { n } else { n + 1 }].0@ == k);
                                assert(s0[m].1@ == s1[n].1@);
                                assert(store_map(s2).contains_key(k));
                                assert(store_map(s2)[k] == target[k]);
                            }
                            if store_map(s2).contains_key(k) {
                                assert(store_map(s1).contains_key(k));
                                let n = choose|n: int|
                                    0 <= n < s1.len() && (#[trigger] s1[n]).0@ == k;
                                assert(s1[n] == s0[if n < i { n } else { n + 1 }]);
                                assert((s0[if n < i { n } else { n + 1 }]).0@ == k);
                                assert(store_map(s0).contains_key(k));
                                assert(target.contains_key(k));
                            }
                        }
                    });
                }
                Ok(actual)
            },
            None => {
                let ghost s0 = self.entries@;
                self.entries.push((actual.clone(), bytes));
                proof {
                    let s2 = self.entries@;
                    assert(s2.drop_last() =~= s0);
                    assert(s2.last().0@ == actual@);
                    assert(s2.last().1@ == data@);
                    assert(forall|j: int| 0 <= j < s2.len() - 1 ==> #[trigger] s2[j] == s0[j]);
                    assert(unique_keys(s2));
                    assert(store_map(s2) == store_map(s0).insert(spec_digest_of(data@), data@));
                }
                Ok(actual)
            },
        }
    }

    fn read_blob(&self, digest: Digest) -> (r: Result<Vec<u8>, CasError>) {
        proof {
            lemma_store_map_characterize(self.entries@);
        }
        match self.position_of(&digest) {
            Some(i) => {
                let bytes = vstd::slice::slice_to_vec(self.entries[i].1.as_slice());
                Ok(bytes)
            },
            None => Err(CasError::BlobNotFound(digest)),
        }
    }

    fn has_blob(&self, digest: &Digest) -> (r: Result<bool, CasError>) {
        proof {
            lemma_store_map_characterize(self.entries@);
        }
        match self.position_of(digest) {
            Some(_) => Ok(true),
            None => Ok(false),
        }
    }
}

} // verus!
