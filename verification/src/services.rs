//! Service façades over the store: the content-storage endpoints, the
//! byte-stream endpoints, the static capabilities, and the stub endpoints
//! the protocol requires.

use vstd::prelude::*;
use vstd::map::*;
use crate::cas::ContentAddressableStorage;
use crate::digest::{Digest, DigestView};
use crate::hashing::spec_digest_of;
use crate::rpc::{RpcError, CODE_OK, CODE_INVALID_ARGUMENT};

verus! {

/// The requested digests that are absent from the store, in request order.
pub open spec fn spec_missing(
    contents: Map<DigestView, Seq<u8>>,
    ds: Seq<DigestView>,
    i: int,
) -> Seq<DigestView>
    decreases ds.len() - i
        when 0 <= i <= ds.len()
{
    if i >= ds.len() {
        Seq::empty()
    } else if contents.contains_key(ds[i]) {
        spec_missing(contents, ds, i + 1)
    } else {
        seq![ds[i]] + spec_missing(contents, ds, i + 1)
    }
}

/// The per-request responses of a batch update, threaded through the store:
/// a matching blob is inserted and answered `OK`, a mismatched one is
/// rejected with `INVALID_ARGUMENT` and the store is unchanged.
pub ghost struct BatchUpdateOut {
    pub cas: Map<DigestView, Seq<u8>>,
    pub responses: Seq<(DigestView, int)>,
}

pub open spec fn spec_batch_update(
    cas: Map<DigestView, Seq<u8>>,
    reqs: Seq<(Digest, Vec<u8>)>,
    i: int,
) -> Option<BatchUpdateOut>
    decreases reqs.len() - i
        when 0 <= i <= reqs.len()
{
    if i >= reqs.len() {
        Some(BatchUpdateOut { cas, responses: Seq::empty() })
    } else {
        let p = reqs[i];
        if p.1@.len() > i64::MAX as int {
            None
        } else if p.0@ == spec_digest_of(p.1@) {
            match spec_batch_update(cas.insert(spec_digest_of(p.1@), p.1@), reqs, i + 1) {
                None => None,
                Some(o) => Some(
                    BatchUpdateOut {
                        cas: o.cas,
                        responses: seq![(p.0@, CODE_OK as int)] + o.responses,
                    },
                ),
            }
        } else {
            match spec_batch_update(cas, reqs, i + 1) {
                None => None,
                Some(o) => Some(
                    BatchUpdateOut {
                        cas: o.cas,
                        responses: seq![(p.0@, CODE_INVALID_ARGUMENT as int)] + o.responses,
                    },
                ),
            }
        }
    }
}

/// The content-storage endpoint set, over any store.
pub struct ContentStorageService<T> {
    pub cas: T,
}

impl<T: ContentAddressableStorage> ContentStorageService<T> {
    pub fn new(cas: T) -> (r: Self)
        ensures
            r.cas == cas,
    {
        ContentStorageService { cas }
    }

    /// Intersects the requested digests with the store and returns exactly
    /// the absent ones, in request order.
    pub fn find_missing_blobs(&self, blob_digests: &Vec<Digest>) -> (r: Result<
        Vec<Digest>,
        RpcError,
    >)
        requires
            self.cas.wf(),
        ensures
            r matches Ok(v) && v@.map_values(|d: Digest| d@) == spec_missing(
                self.cas.contents(),
                blob_digests@.map_values(|d: Digest| d@),
                0,
            ),
    {
        self.find_missing_from(blob_digests, 0)
    }

    fn find_missing_from(&self, blob_digests: &Vec<Digest>, i: usize) -> (r: Result<
        Vec<Digest>,
        RpcError,
    >)
        requires
            self.cas.wf(),
            i <= blob_digests@.len(),
        ensures
            r matches Ok(v) && v@.map_values(|d: Digest| d@) == spec_missing(
                self.cas.contents(),
                blob_digests@.map_values(|d: Digest| d@),
                i as int,
            ),
        decreases blob_digests@.len() - i,
    {
        let ghost gd = blob_digests@.map_values(|d: Digest| d@);
        if i >= blob_digests.len() {
            let empty: Vec<Digest> = Vec::new();
            proof {
                assert(empty@.map_values(|d: Digest| d@) =~= Seq::<DigestView>::empty());
            }
            return Ok(empty);
        }
        let rest = match self.find_missing_from(blob_digests, i + 1) {
            Ok(v) => v,
            Err(e) => {
                return Err(e);
            },
        };
        match self.cas.has_blob(&blob_digests[i]) {
            Err(_) => Err(RpcError::Unknown(String::from_str("store failure"))),
            Ok(true) => Ok(rest),
            Ok(false) => {
                let mut out: Vec<Digest> = Vec::new();
                out.push(blob_digests[i].clone());
                let mut rest = rest;
                out.append(&mut rest);
                proof {
                    assert(out@.map_values(|d: Digest| d@) =~= spec_missing(
                        self.cas.contents(),
                        gd,
                        i as int,
                    ));
                }
                Ok(out)
            },
        }
    }

    /// Attempts each upload in order: a blob whose bytes hash to the claimed
    /// digest is stored and acknowledged `OK`; a mismatch is answered
    /// `INVALID_ARGUMENT` and not stored.
    pub fn batch_update_blobs(&mut self, requests: &Vec<(Digest, Vec<u8>)>) -> (r: Result<
        Vec<(Digest, i32)>,
        RpcError,
    >)
        requires
            old(self).cas.wf(),
        ensures
            final(self).cas.wf(),
            match spec_batch_update(old(self).cas.contents(), requests@, 0) {
                Some(o) => r matches Ok(v) && final(self).cas.contents() == o.cas
                    && v@.map_values(|p: (Digest, i32)| (p.0@, p.1 as int)) == o.responses,
                None => r is Err,
            },
    {
        self.batch_update_from(requests, 0)
    }

    fn batch_update_from(&mut self, requests: &Vec<(Digest, Vec<u8>)>, i: usize) -> (r: Result<
        Vec<(Digest, i32)>,
        RpcError,
    >)
        requires
            old(self).cas.wf(),
            i <= requests@.len(),
        ensures
            final(self).cas.wf(),
            match spec_batch_update(old(self).cas.contents(), requests@, i as int) {
                Some(o) => r matches Ok(v) && final(self).cas.contents() == o.cas
                    && v@.map_values(|p: (Digest, i32)| (p.0@, p.1 as int)) == o.responses,
                None => r is Err,
            },
        decreases requests@.len() - i,
    {
        if i >= requests.len() {
            let empty: Vec<(Digest, i32)> = Vec::new();
            proof {
                assert(empty@.map_values(|p: (Digest, i32)| (p.0@, p.1 as int)) =~= Seq::<
                    (DigestView, int),
                >::empty());
            }
            return Ok(empty);
        }
        if requests[i].1.len() as u64 > i64::MAX as u64 {
            return Err(RpcError::Unknown(String::from_str("blob too large")));
        }
        let code: i32 = match self.cas.write_blob(
            requests[i].1.as_slice(),
            Some(requests[i].0.clone()),
        ) {
            Ok(_) => CODE_OK,
            Err(_) => CODE_INVALID_ARGUMENT,
        };
        match self.batch_update_from(requests, i + 1) {
            Err(e) => Err(e),
            Ok(rest) => {
                let mut out: Vec<(Digest, i32)> = Vec::new();
                out.push((requests[i].0.clone(), code));
                let mut rest = rest;
                out.append(&mut rest);
                proof {
                    let o = spec_batch_update(
                        old(self).cas.contents(),
                        requests@,
                        i as int,
                    )->Some_0;
                    assert(out@.map_values(|p: (Digest, i32)| (p.0@, p.1 as int)) =~= o.responses);
                }
                Ok(out)
            },
        }
    }

    /// Reads every requested blob, answering raw bytes with the identity
    /// compressor; the first absent digest fails the whole request.
    pub fn batch_read_blobs(&self, digests: &Vec<Digest>) -> (r: Result<
        Vec<(Digest, Vec<u8>, i32)>,
        RpcError,
    >)
        requires
            self.cas.wf(),
        ensures
            ({
                let gd = digests@.map_values(|d: Digest| d@);
                let contents = self.cas.contents();
                &&& (forall|j: int| 0 <= j < gd.len() ==> contents.contains_key(#[trigger] gd[j]))
                    <==> r is Ok
                &&& r matches Ok(v) ==> v@.len() == gd.len() && forall|j: int|
                    0 <= j < gd.len() ==> (#[trigger] v@[j]).0@ == gd[j] && v@[j].1@
                        == contents[gd[j]] && v@[j].2 == COMPRESSOR_IDENTITY
            }),
    {
        let r = self.batch_read_from(digests, 0);
        proof {
            let gd = digests@.map_values(|d: Digest| d@);
            if r is Ok {
                let v = r->Ok_0;
                assert forall|j: int| 0 <= j < gd.len() implies (#[trigger] v@[j]).0@ == gd[j]
                    && v@[j].1@ == self.cas.contents()[gd[j]] && v@[j].2 == COMPRESSOR_IDENTITY
                    by {
                    assert(v@[j - 0].0@ == gd[j]);
                    assert(v@[j - 0].1@ == self.cas.contents()[gd[j]]);
                    assert(v@[j - 0].2 == COMPRESSOR_IDENTITY);
                }
            }
        }
        r
    }

    fn batch_read_from(&self, digests: &Vec<Digest>, i: usize) -> (r: Result<
        Vec<(Digest, Vec<u8>, i32)>,
        RpcError,
    >)
        requires
            self.cas.wf(),
            i <= digests@.len(),
        ensures
            ({
                let gd = digests@.map_values(|d: Digest| d@);
                let contents = self.cas.contents();
                &&& (forall|j: int|
                    i <= j < gd.len() ==> contents.contains_key(#[trigger] gd[j])) <==> r is Ok
                &&& r matches Ok(v) ==> v@.len() == gd.len() - i && forall|j: int|
                    i <= j < gd.len() ==> (#[trigger] v@[j - i]).0@ == gd[j] && v@[j - i].1@
                        == contents[gd[j]] && v@[j - i].2 == COMPRESSOR_IDENTITY
            }),
        decreases digests@.len() - i,
    {
        let ghost gd = digests@.map_values(|d: Digest| d@);
        if i >= digests.len() {
            let empty: Vec<(Digest, Vec<u8>, i32)> = Vec::new();
            return Ok(empty);
        }
        match self.cas.read_blob(digests[i].clone()) {
            Err(_) => {
                proof {
                    assert(gd[i as int] == digests@[i as int]@);
                    assert(!self.cas.contents().contains_key(gd[i as int]));
                }
                Err(RpcError::Unknown(String::from_str("blob not found")))
            },
            Ok(data) => {
                match self.batch_read_from(digests, i + 1) {
                    Err(e) => {
                        proof {
                            let k = choose|j: int|
                                i + 1 <= j < gd.len() && !self.cas.contents().contains_key(
                                    #[trigger] gd[j],
                                );
                            assert(!self.cas.contents().contains_key(gd[k]));
                        }
                        Err(e)
                    },
                    Ok(rest) => {
                        let mut out: Vec<(Digest, Vec<u8>, i32)> = Vec::new();
                        out.push((digests[i].clone(), data, COMPRESSOR_IDENTITY));
                        let ghost grest = rest@;
                        let mut rest = rest;
                        out.append(&mut rest);
                        proof {
                            assert(gd[i as int] == digests@[i as int]@);
                            assert forall|j: int| i <= j < gd.len() implies self.cas.contents()
                                .contains_key(#[trigger] gd[j]) by {
                                if j > i {
                                    assert(self.cas.contents().contains_key(gd[j]));
                                }
                            }
                            assert(out@.len() == gd.len() - i);
                            assert forall|j: int| i <= j < gd.len() implies (#[trigger] out@[j
                                - i]).0@ == gd[j] && out@[j - i].1@ == self.cas.contents()[gd[j]]
                                && out@[j - i].2 == COMPRESSOR_IDENTITY by {
                                if j == i {
                                    assert(out@[0].0@ == gd[i as int]);
                                    assert(out@[0].1@ == self.cas.contents()[gd[i as int]]);
                                    assert(out@[0].2 == COMPRESSOR_IDENTITY);
                                } else {
                                    assert(out@[j - i] == grest[j - (i + 1)]);
                                }
                            }
                        }
                        Ok(out)
                    },
                }
            },
        }
    }

    /// Tree fetching is not offered by this release.
    pub fn get_tree(&self) -> (r: Result<Vec<Digest>, RpcError>)
        ensures
            r is Err,
    {
        Err(RpcError::Unknown(String::from_str("GetTree: not yet implemented")))
    }
}

/// The identity (no-compression) compressor value.
pub const COMPRESSOR_IDENTITY: i32 = 0;

/// The stream's chunk size when reading a blob out.
pub const READ_CHUNK_SIZE: usize = 1024;

/// A blob cut into chunks of up to 1024 bytes, in order.
pub open spec fn spec_chunks(data: Seq<u8>, pos: int) -> Seq<Seq<u8>>
    decreases data.len() - pos
        when 0 <= pos <= data.len()
{
    if pos >= data.len() {
        Seq::empty()
    } else {
        let stop = if pos + 1024 <= data.len() {
            pos + 1024
        } else {
            data.len() as int
        };
        seq![data.subrange(pos, stop)] + spec_chunks(data, stop)
    }
}

/// Chunks reassembled into one blob, from index `i` on.
pub open spec fn spec_assembled(chunks: Seq<Vec<u8>>, i: int) -> Seq<u8>
    decreases chunks.len() - i
        when 0 <= i <= chunks.len()
{
    if i >= chunks.len() {
        Seq::empty()
    } else {
        chunks[i]@ + spec_assembled(chunks, i + 1)
    }
}

/// Streaming a blob out loses nothing: the chunks of a blob, joined back
/// together, are exactly the blob.
pub proof fn lemma_chunks_reassemble(data: Seq<u8>, pos: int)
    requires
        0 <= pos <= data.len(),
    ensures
        spec_chunks(data, pos).fold_left(
            Seq::<u8>::empty(),
            |acc: Seq<u8>, c: Seq<u8>| acc + c,
        ) == data.subrange(pos, data.len() as int),
    decreases data.len() - pos,
{
    let f = |acc: Seq<u8>, c: Seq<u8>| acc + c;
    if pos >= data.len() {
        assert(spec_chunks(data, pos).fold_left(Seq::<u8>::empty(), f) =~= data.subrange(
            pos,
            data.len() as int,
        ));
    } else {
        let stop = if pos + 1024 <= data.len() {
            pos + 1024
        } else {
            data.len() as int
        };
        lemma_chunks_reassemble(data, stop);
        let head = data.subrange(pos, stop);
        let rest = spec_chunks(data, stop);
        let s = spec_chunks(data, pos);
        assert(s == seq![head] + rest);
        s.lemma_fold_left_split(Seq::<u8>::empty(), f, 1);
        assert(s.subrange(0, 1) =~= seq![head]);
        assert(seq![head].drop_last() =~= Seq::<Seq<u8>>::empty());
        reveal_with_fuel(Seq::fold_left, 2);
        assert(seq![head].fold_left(Seq::<u8>::empty(), f) == f(Seq::<u8>::empty(), head));
        assert(Seq::<u8>::empty() + head =~= head);
        assert(s.subrange(1, s.len() as int) =~= rest);
        assert(s.fold_left(Seq::<u8>::empty(), f) == rest.fold_left(head, f));
        lemma_fold_concat_shift(rest, head);
        assert(head + data.subrange(stop, data.len() as int) =~= data.subrange(
            pos,
            data.len() as int,
        ));
    }
}

/// Folding concatenation over a chunk list starting from a prefix prepends
/// the prefix to the fold from empty.
proof fn lemma_fold_concat_shift(chunks: Seq<Seq<u8>>, prefix: Seq<u8>)
    ensures
        chunks.fold_left(prefix, |acc: Seq<u8>, c: Seq<u8>| acc + c) == prefix
            + chunks.fold_left(Seq::<u8>::empty(), |acc: Seq<u8>, c: Seq<u8>| acc + c),
    decreases chunks.len(),
{
    let f = |acc: Seq<u8>, c: Seq<u8>| acc + c;
    if chunks.len() == 0 {
        assert(prefix + Seq::<u8>::empty() =~= prefix);
    } else {
        lemma_fold_concat_shift(chunks.drop_last(), prefix);
        lemma_fold_concat_shift(chunks.drop_last(), Seq::<u8>::empty());
        assert(chunks.fold_left(prefix, f) == chunks.drop_last().fold_left(prefix, f)
            + chunks.last());
        assert(Seq::<u8>::empty() + chunks.drop_last().fold_left(Seq::<u8>::empty(), f)
            =~= chunks.drop_last().fold_left(Seq::<u8>::empty(), f));
        assert(prefix + (chunks.drop_last().fold_left(Seq::<u8>::empty(), f) + chunks.last())
            =~= (prefix + chunks.drop_last().fold_left(Seq::<u8>::empty(), f)) + chunks.last());
    }
}

fn chunk_from(data: &Vec<u8>, pos: usize) -> (r: Vec<Vec<u8>>)
    requires
        pos <= data@.len(),
    ensures
        r@.map_values(|c: Vec<u8>| c@) == spec_chunks(data@, pos as int),
    decreases data@.len() - pos,
{
    if pos >= data.len() {
        let empty: Vec<Vec<u8>> = Vec::new();
        proof {
            assert(empty@.map_values(|c: Vec<u8>| c@) =~= Seq::<Seq<u8>>::empty());
        }
        return empty;
    }
    let stop = if data.len() - pos >= READ_CHUNK_SIZE {
        pos + READ_CHUNK_SIZE
    } else {
        data.len()
    };
    let chunk = vstd::slice::slice_to_vec(
        vstd::slice::slice_subrange(data.as_slice(), pos, stop),
    );
    let mut rest = chunk_from(data, stop);
    let mut out: Vec<Vec<u8>> = Vec::new();
    out.push(chunk);
    out.append(&mut rest);
    proof {
        assert(out@.map_values(|c: Vec<u8>| c@) =~= spec_chunks(data@, pos as int));
    }
    out
}

fn assemble_from(chunks: &Vec<Vec<u8>>, i: usize) -> (r: Vec<u8>)
    requires
        i <= chunks@.len(),
    ensures
        r@ == spec_assembled(chunks@, i as int),
    decreases chunks@.len() - i,
{
    if i >= chunks.len() {
        let empty: Vec<u8> = Vec::new();
        proof {
            assert(empty@ =~= spec_assembled(chunks@, i as int));
        }
        return empty;
    }
    let mut out = vstd::slice::slice_to_vec(chunks[i].as_slice());
    let mut rest = assemble_from(chunks, i + 1);
    out.append(&mut rest);
    proof {
        assert(out@ =~= spec_assembled(chunks@, i as int));
    }
    out
}

/// The byte-stream endpoints: a blob read out in bounded chunks, and a blob
/// written from the chunks of an upload stream.
pub struct BytestreamService<T> {
    pub cas: T,
}

impl<T: ContentAddressableStorage> BytestreamService<T> {
    pub fn new(cas: T) -> (r: Self)
        ensures
            r.cas == cas,
    {
        BytestreamService { cas }
    }

    /// Reads the blob stored under the digest as a sequence of chunks of up
    /// to 1024 bytes whose concatenation is exactly the stored bytes.
    pub fn read(&self, digest: Digest) -> (r: Result<Vec<Vec<u8>>, RpcError>)
        requires
            self.cas.wf(),
        ensures
            r is Ok <==> self.cas.contents().contains_key(digest@),
            r matches Ok(v) ==> v@.map_values(|c: Vec<u8>| c@) == spec_chunks(
                self.cas.contents()[digest@],
                0,
            ),
            r matches Err(e) ==> e matches RpcError::NotFound(_),
    {
        match self.cas.read_blob(digest) {
            Err(_) => Err(RpcError::NotFound(String::from_str("blob not found"))),
            Ok(data) => Ok(chunk_from(&data, 0)),
        }
    }

    /// Assembles the uploaded chunks and stores them under the claimed
    /// digest, answering with the committed size; a digest mismatch is
    /// refused and stores nothing.
    pub fn write(&mut self, digest: Digest, chunks: &Vec<Vec<u8>>) -> (r: Result<i64, RpcError>)
        requires
            old(self).cas.wf(),
        ensures
            final(self).cas.wf(),
            ({
                let data = spec_assembled(chunks@, 0);
                &&& (data.len() <= i64::MAX as int && digest@ == spec_digest_of(data)) <==> r is Ok
                &&& r matches Ok(n) ==> n == data.len() && final(self).cas.contents() == old(
                    self,
                ).cas.contents().insert(spec_digest_of(data), data)
                &&& r is Err ==> final(self).cas.contents() == old(self).cas.contents()
            }),
    {
        let data = assemble_from(chunks, 0);
        if data.len() as u64 > i64::MAX as u64 {
            return Err(RpcError::Internal(String::from_str("blob too large")));
        }
        let n = data.len() as i64;
        match self.cas.write_blob(data.as_slice(), Some(digest)) {
            Ok(_) => Ok(n),
            Err(_) => Err(RpcError::Internal(String::from_str("invalid blob write"))),
        }
    }

    /// Write-status queries are not offered by this release.
    pub fn query_write_status(&self) -> (r: Result<i64, RpcError>)
        ensures
            r is Err,
    {
        Err(RpcError::Unknown(String::from_str("Not Supported at this time.")))
    }
}

/// The advertised digest function: SHA-256.
pub const DIGEST_FUNCTION_SHA256: i32 = 1;

pub struct SemVer {
    pub major: i32,
    pub minor: i32,
    pub patch: i32,
    pub prerelease: String,
}

pub struct ActionCacheUpdateCapabilities {
    pub update_enabled: bool,
}

pub struct CacheCapabilities {
    pub digest_functions: Vec<i32>,
    pub action_cache_update_capabilities: Option<ActionCacheUpdateCapabilities>,
    pub max_batch_total_size_bytes: i64,
    pub symlink_absolute_path_strategy: i32,
}

pub struct ExecutionCapabilities {
    pub digest_function: i32,
    pub exec_enabled: bool,
}

pub struct ServerCapabilities {
    pub cache_capabilities: Option<CacheCapabilities>,
    pub execution_capabilities: Option<ExecutionCapabilities>,
    pub low_api_version: Option<SemVer>,
    pub high_api_version: Option<SemVer>,
}

/// The static capabilities endpoint.
pub struct CapabilitiesService {}

impl CapabilitiesService {
    /// The node's capabilities: SHA-256 as the only digest function,
    /// action-cache updates enabled, execution enabled, no batch size
    /// limit or symlink strategy advertised, and API version range
    /// [2.0, 2.0].
    pub fn get_capabilities(&self) -> (r: ServerCapabilities)
        ensures
            r.cache_capabilities matches Some(cc) && (cc.digest_functions@.len() == 1
                && cc.digest_functions@[0] == DIGEST_FUNCTION_SHA256) && (
            cc.action_cache_update_capabilities matches Some(u) && u.update_enabled)
                && cc.max_batch_total_size_bytes == 0 && cc.symlink_absolute_path_strategy == 0,
            r.execution_capabilities matches Some(ec) && ec.digest_function
                == DIGEST_FUNCTION_SHA256 && ec.exec_enabled,
            r.low_api_version matches Some(lo) && lo.major == 2 && lo.minor == 0 && lo.patch == 0,
            r.high_api_version matches Some(hi) && hi.major == 2 && hi.minor == 0 && hi.patch == 0,
    {
        let mut digest_functions: Vec<i32> = Vec::new();
        digest_functions.push(DIGEST_FUNCTION_SHA256);
        let cache_capabilities = CacheCapabilities {
            digest_functions,
            action_cache_update_capabilities: Some(
                ActionCacheUpdateCapabilities { update_enabled: true },
            ),
            max_batch_total_size_bytes: 0,
            symlink_absolute_path_strategy: 0,
        };
        let exec_caps = ExecutionCapabilities {
            digest_function: DIGEST_FUNCTION_SHA256,
            exec_enabled: true,
        };
        ServerCapabilities {
            cache_capabilities: Some(cache_capabilities),
            execution_capabilities: Some(exec_caps),
            low_api_version: Some(
                SemVer { major: 2, minor: 0, patch: 0, prerelease: String::new() },
            ),
            high_api_version: Some(
                SemVer { major: 2, minor: 0, patch: 0, prerelease: String::new() },
            ),
        }
    }
}

/// The action-cache endpoints; result caching is not offered by this
/// release, so both answer "not found".
pub struct ActionCacheService {}

impl ActionCacheService {
    pub fn get_action_result(&self) -> (r: Result<crate::execution::ExecuteResponse, RpcError>)
        ensures
            r matches Err(e) && e matches RpcError::NotFound(_),
    {
        Err(RpcError::NotFound(String::from_str("GetActionResult: Not yet implemented")))
    }

    pub fn update_action_result(&self) -> (r: Result<crate::execution::ExecuteResponse, RpcError>)
        ensures
            r matches Err(e) && e matches RpcError::NotFound(_),
    {
        Err(RpcError::NotFound(String::from_str("UpdateActionResult: Not yet implemented")))
    }
}

/// The long-running-operations endpoints; reattaching to an operation is
/// not offered by this release.
pub struct OperationsService {}

impl OperationsService {
    pub fn new() -> (r: OperationsService) {
        OperationsService {}
    }

    pub fn list_operations(&self) -> (r: Result<Vec<crate::operations::Operation>, RpcError>)
        ensures
            r matches Err(e) && e matches RpcError::NotFound(_),
    {
        Err(RpcError::NotFound(String::from_str("ListOperations: Not yet implemented")))
    }

    pub fn get_operation(&self) -> (r: Result<crate::operations::Operation, RpcError>)
        ensures
            r matches Err(e) && e matches RpcError::NotFound(_),
    {
        Err(RpcError::NotFound(String::from_str("GetOperation: Not yet implemented")))
    }

    pub fn delete_operation(&self) -> (r: Result<(), RpcError>)
        ensures
            r matches Err(e) && e matches RpcError::NotFound(_),
    {
        Err(RpcError::NotFound(String::from_str("DeleteOperation: Not yet implemented")))
    }

    pub fn cancel_operation(&self) -> (r: Result<(), RpcError>)
        ensures
            r matches Err(e) && e matches RpcError::NotFound(_),
    {
        Err(RpcError::NotFound(String::from_str("CancelOperation: Not yet implemented")))
    }

    pub fn wait_operation(&self) -> (r: Result<crate::operations::Operation, RpcError>)
        ensures
            r matches Err(e) && e matches RpcError::NotFound(_),
    {
        Err(RpcError::NotFound(String::from_str("WaitOperation: Not yet implemented")))
    }
}

} // verus!
