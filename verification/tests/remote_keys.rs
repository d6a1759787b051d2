use s3_client::keys::{build_upload_key, safe_local_destination};
use s3_client::oss::Oss;
use std::path::PathBuf;

#[test]
fn builds_upload_key_for_bucket_root() {
    assert_eq!(build_upload_key("", "file.txt"), "file.txt");
    assert_eq!(build_upload_key("/", "file.txt"), "file.txt");
}

#[test]
fn builds_upload_key_for_nested_prefix() {
    assert_eq!(build_upload_key("dir", "file.txt"), "dir/file.txt");
    assert_eq!(build_upload_key("dir/", "file.txt"), "dir/file.txt");
    assert_eq!(
        build_upload_key("/dir/sub/", "file.txt"),
        "dir/sub/file.txt"
    );
}

#[test]
fn builds_safe_download_path() {
    let path = safe_local_destination("/tmp/download", "dir", "dir/sub/file.txt").unwrap();
    assert_eq!(PathBuf::from(path), PathBuf::from("/tmp/download/sub/file.txt"));
}

#[test]
fn rejects_unsafe_download_path() {
    assert!(safe_local_destination("/tmp/download", "", "../secret.txt").is_err());
    assert!(safe_local_destination("/tmp/download", "", "dir/../secret.txt").is_err());
    assert!(safe_local_destination("/tmp/download", "", "dir\\secret.txt").is_err());
}

#[test]
fn normalizes_directory_prefix_for_recursive_delete() {
    assert_eq!(Oss::normalize_directory_prefix("dir"), "dir/");
    assert_eq!(Oss::normalize_directory_prefix("dir/"), "dir/");
    assert_eq!(Oss::normalize_directory_prefix("/dir/sub/"), "dir/sub/");
    assert_eq!(Oss::normalize_directory_prefix(""), "");
    assert_eq!(Oss::normalize_directory_prefix("/"), "");
}

#[test]
fn chunks_delete_keys_by_s3_limit() {
    let keys = (0..2501)
        .map(|index| format!("file-{}.txt", index))
        .collect::<Vec<_>>();
    let chunks = Oss::chunk_delete_keys(&keys);

    assert_eq!(chunks.len(), 3);
    assert_eq!(chunks[0].len(), 1000);
    assert_eq!(chunks[1].len(), 1000);
    assert_eq!(chunks[2].len(), 501);
}
