use stash::store::{
    check_download, check_range, create_blob, describe_blob, download_plan, is_stale, safe_blob_name, valid_hash,
};
use stash::{digest, Blob, Hasher, StashError};

#[test]
fn sha256_file_digests() {
    let h1 = digest(b"test1");
    let h2 = digest(b"test2");
    let h3 = digest(b"test1");
    assert!(h1 != h2);
    assert!(h1 == h3);
}

#[test]
fn digest_known_values() {
    assert_eq!(digest(b"hello world"), "b94d27b9934d3e08a52e52d7da7dabfac484efe37a5380ee9088f7ace2efcde9");
    assert_eq!(digest(b""), "e3b0c44298fc1c149afbf4c8996fb92427ae41e4649b934ca495991b7852b855");
    assert!(valid_hash(&digest(b"abc")));
}

#[test]
fn streamed_digest_matches_whole() {
    let mut h = Hasher::new();
    h.update(b"hello");
    h.update(b" world");
    assert_eq!(h.finish_hex(), digest(b"hello world"));
}

#[test]
fn blob_management() {
    let blob = create_blob();
    assert_eq!(blob.size, 0);
    assert_eq!(blob.name.len(), 36);
    assert!(safe_blob_name(&blob.name));
    let other = create_blob();
    assert_ne!(blob.name, other.name);

    let described = describe_blob(&blob.name, Some(11)).unwrap();
    assert_eq!(described, Blob { name: blob.name.clone(), size: 11 });
    let missing = describe_blob(&blob.name, None);
    assert_eq!(missing, Err(StashError::NoSuchBlob));
    assert_eq!(missing.unwrap_err().message(), "No such blob");
}

#[test]
fn blob_names_that_escape_are_rejected() {
    for bad in ["", ".", "..", "a/b", "a\\b", "a\0b", "../x"] {
        assert!(!safe_blob_name(bad), "{bad:?}");
        assert_eq!(describe_blob(bad, Some(1)), Err(StashError::NoSuchBlob));
    }
    assert!(safe_blob_name("..."));
    assert!(safe_blob_name(".a"));
}

#[test]
fn hash_shape() {
    assert!(valid_hash("b94d27b9934d3e08a52e52d7da7dabfac484efe37a5380ee9088f7ace2efcde9"));
    assert!(!valid_hash("B94d27b9934d3e08a52e52d7da7dabfac484efe37a5380ee9088f7ace2efcde9"));
    assert!(!valid_hash("b94d27"));
    assert!(!valid_hash("../../../../../../../../../../../../../../../../../../etc/passwd"));
}

#[test]
fn download_ranges() {
    assert_eq!(check_range(11, 0, 11), Ok(()));
    assert_eq!(check_range(11, 5, 6), Ok(()));
    assert_eq!(check_range(11, 11, 0), Ok(()));
    assert_eq!(check_range(11, 5, 7), Err(StashError::OutOfBounds));
    assert_eq!(check_range(11, 12, 0), Err(StashError::OutOfBounds));
    assert_eq!(check_range(u64::MAX, u64::MAX, 1), Err(StashError::OutOfBounds));
    assert_eq!(check_range(u64::MAX, 1, u64::MAX), Err(StashError::OutOfBounds));
    assert_eq!(check_range(u64::MAX, 0, u64::MAX), Ok(()));
}

#[test]
fn staleness() {
    assert!(is_stale(0, 100, 99));
    assert!(!is_stale(0, 100, 100));
    assert!(is_stale(i64::MIN, i64::MAX, 0));
}

#[test]
fn download_plans() {
    assert_eq!(download_plan(0, 5), vec![]);
    assert_eq!(download_plan(11, 5), vec![(0, 5), (5, 5), (10, 1)]);
    assert_eq!(download_plan(10, 5), vec![(0, 5), (5, 5)]);
    assert_eq!(download_plan(3, 5), vec![(0, 3)]);
    for (start, len) in download_plan(11, 4) {
        assert_eq!(check_range(11, start, len), Ok(()));
    }
}

#[test]
fn download_checks() {
    let h = digest(b"hello world");
    assert_eq!(check_download(&h, Some(11), 0, 11), Ok(()));
    assert_eq!(check_download(&h, Some(11), 1, 11), Err(StashError::OutOfBounds));
    assert_eq!(check_download(&h, None, 0, 1), Err(StashError::NoSuchFile));
    assert_eq!(check_download("../blobs/x", Some(11), 0, 1), Err(StashError::NoSuchFile));
    assert_eq!(check_download(&h, Some(11), 12, 0).unwrap_err().message(), "Data index out of bounds");
}
