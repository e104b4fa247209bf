use oryx::cas::{ContentAddressableStorage, InMemory};
use oryx::digest::Digest;
use oryx::error::CasError;
use oryx::rpc::{CODE_INVALID_ARGUMENT, CODE_OK};
use oryx::services::{BytestreamService, CapabilitiesService, ContentStorageService};

const SWAKOPMUND_DIGEST: &str =
    "8aad87ae61d3df48ff6447ca5f5b8670b9d9d080dbbf735be109530a445330e3:10";

#[test]
fn simple_blob_exists() {
    let missing_digest = Digest::from_str("aaaa:5").unwrap();
    let service = ContentStorageService::new(InMemory::default());
    let response = service
        .find_missing_blobs(&vec![missing_digest.clone()])
        .unwrap();
    assert_eq!(response.len(), 1);
    assert!(response[0] == missing_digest);
}

#[test]
fn blob_not_missing_after_upload() {
    let missing_digest = Digest::from_str(SWAKOPMUND_DIGEST).unwrap();
    let mut service = ContentStorageService::new(InMemory::default());

    let response = service
        .find_missing_blobs(&vec![missing_digest.clone()])
        .unwrap();
    assert_eq!(response.len(), 1);
    assert!(response[0] == missing_digest);

    let responses = service
        .batch_update_blobs(&vec![(missing_digest.clone(), b"swakopmund".to_vec())])
        .unwrap();
    assert_eq!(responses.len(), 1);
    assert!(responses[0].0 == missing_digest);
    assert_eq!(responses[0].1, CODE_OK);

    let response = service
        .find_missing_blobs(&vec![missing_digest.clone()])
        .unwrap();
    assert!(response.is_empty());
}

#[test]
fn bad_blob_gives_invalid_argument() {
    // A claimed digest arrives on the wire unvalidated; this one does not
    // match the content's real digest.
    let missing_digest = Digest::new(String::from("africa"), 10);
    let mut service = ContentStorageService::new(InMemory::default());

    let responses = service
        .batch_update_blobs(&vec![(missing_digest.clone(), b"swakopmund".to_vec())])
        .unwrap();
    assert_eq!(responses.len(), 1);
    assert!(responses[0].0 == missing_digest);
    assert_eq!(responses[0].1, CODE_INVALID_ARGUMENT);

    // The mismatched blob was never inserted.
    assert!(!service.cas.has_blob(&missing_digest).unwrap());
}

#[test]
fn write_blob_is_idempotent() {
    let mut cas = InMemory::default();
    let d1 = cas.write_blob(b"swakopmund", None).unwrap();
    let d2 = cas.write_blob(b"swakopmund", None).unwrap();
    assert!(d1 == d2);
    assert_eq!(d1.to_text(), SWAKOPMUND_DIGEST);
    assert!(cas.has_blob(&d1).unwrap());
    let bytes = cas.read_blob(d1).unwrap();
    assert_eq!(bytes, b"swakopmund".to_vec());
}

#[test]
fn write_blob_rejects_mismatched_claim() {
    let mut cas = InMemory::default();
    let claimed = Digest::new(String::from("abcd"), 10);
    let r = cas.write_blob(b"swakopmund", Some(claimed.clone()));
    match r {
        Err(CasError::InvalidDigest(actual, expected)) => {
            assert_eq!(actual.to_text(), SWAKOPMUND_DIGEST);
            assert!(expected == claimed);
        },
        _ => panic!("expected an invalid-digest rejection"),
    }
    assert!(!cas.has_blob(&claimed).unwrap());
}

#[test]
fn read_blob_signals_missing() {
    let cas = InMemory::default();
    let d = Digest::from_str("aaaa:5").unwrap();
    match cas.read_blob(d.clone()) {
        Err(CasError::BlobNotFound(missing)) => assert!(missing == d),
        _ => panic!("expected a blob-not-found failure"),
    }
}

#[test]
fn batch_read_blobs_returns_bytes() {
    let mut service = ContentStorageService::new(InMemory::default());
    let d = service.cas.write_blob(b"swakopmund", None).unwrap();
    let responses = service.batch_read_blobs(&vec![d.clone()]).unwrap();
    assert_eq!(responses.len(), 1);
    assert!(responses[0].0 == d);
    assert_eq!(responses[0].1, b"swakopmund".to_vec());
    assert_eq!(responses[0].2, oryx::services::COMPRESSOR_IDENTITY);
}

#[test]
fn batch_read_blobs_fails_on_missing() {
    let service = ContentStorageService::new(InMemory::default());
    let d = Digest::from_str("aaaa:5").unwrap();
    assert!(service.batch_read_blobs(&vec![d]).is_err());
}

#[test]
fn bytestream_round_trip_in_chunks() {
    let mut data = Vec::new();
    for i in 0..3000usize {
        data.push((i % 251) as u8);
    }
    let digest = oryx::hashing::compute_digest(&data);
    let mut service = BytestreamService::new(InMemory::default());
    let committed = service
        .write(digest.clone(), &vec![data[..1000].to_vec(), data[1000..].to_vec()])
        .unwrap();
    assert_eq!(committed, 3000);
    let chunks = service.read(digest).unwrap();
    assert_eq!(chunks.len(), 3);
    assert_eq!(chunks[0].len(), 1024);
    assert_eq!(chunks[1].len(), 1024);
    assert_eq!(chunks[2].len(), 952);
    let mut joined = Vec::new();
    for c in &chunks {
        joined.extend_from_slice(c);
    }
    assert_eq!(joined, data);
}

#[test]
fn bytestream_write_rejects_mismatch() {
    let mut service = BytestreamService::new(InMemory::default());
    let claimed = Digest::new(String::from("abcd"), 4);
    assert!(service.write(claimed.clone(), &vec![b"data".to_vec()]).is_err());
    assert!(!service.cas.has_blob(&claimed).unwrap());
}

#[test]
fn capabilities_advertise_sha256_and_execution() {
    let service = CapabilitiesService {};
    let caps = service.get_capabilities();
    let cache = caps.cache_capabilities.unwrap();
    assert_eq!(cache.digest_functions, vec![oryx::services::DIGEST_FUNCTION_SHA256]);
    assert!(cache.action_cache_update_capabilities.unwrap().update_enabled);
    assert_eq!(cache.max_batch_total_size_bytes, 0);
    assert_eq!(cache.symlink_absolute_path_strategy, 0);
    let exec = caps.execution_capabilities.unwrap();
    assert!(exec.exec_enabled);
    assert_eq!(exec.digest_function, oryx::services::DIGEST_FUNCTION_SHA256);
    let lo = caps.low_api_version.unwrap();
    let hi = caps.high_api_version.unwrap();
    assert_eq!((lo.major, lo.minor, lo.patch), (2, 0, 0));
    assert_eq!((hi.major, hi.minor, hi.patch), (2, 0, 0));
}

#[test]
fn stub_services_answer_not_found() {
    let ac = oryx::services::ActionCacheService {};
    assert!(ac.get_action_result().is_err());
    assert!(ac.update_action_result().is_err());
    let ops = oryx::services::OperationsService::new();
    assert!(ops.list_operations().is_err());
    assert!(ops.cancel_operation().is_err());
}
