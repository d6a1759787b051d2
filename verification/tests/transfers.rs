use s3_client::config::{config_from_row, configs_from_rows, needs_sort_backfill, row_for_config, sort_value_for_position};
use s3_client::keys::PathError;
use s3_client::models::OssConfig;
use s3_client::transfer::{
    check_download_selection, check_presign_expiry, check_preview_size, check_queue_room, check_upload_batch,
    download_target, file_name, running_status, selects_directory, status_after_error, outcome_after_error, transfer_kind,
    TransferError, TransferKind, TransferRegistry, TransferStatus,
};

#[test]
fn upload_batches_are_bounded() {
    assert_eq!(check_upload_batch(0), Err(TransferError::NoFilesToUpload));
    assert_eq!(check_upload_batch(1000), Ok(()));
    assert_eq!(check_upload_batch(1001), Err(TransferError::TooManyTasks));
    assert_eq!(TransferError::TooManyTasks.message(), "传输队列最多支持 1000 个等待任务");
    assert_eq!(check_download_selection(0), Err(TransferError::NothingSelected));
    assert_eq!(check_download_selection(2), Ok(()));
}

#[test]
fn queue_room_is_checked() {
    assert_eq!(check_queue_room(TransferKind::Upload, 3, 3), Ok(()));
    let e = check_queue_room(TransferKind::Download, 4, 3).unwrap_err();
    assert_eq!(e, TransferError::QueueFull(TransferKind::Download, 3));
    assert_eq!(e.message(), "下载队列剩余容量不足，当前最多还能添加 3 个任务");
}

#[test]
fn retry_types_are_named() {
    assert_eq!(transfer_kind("upload"), Ok(TransferKind::Upload));
    assert_eq!(transfer_kind("download"), Ok(TransferKind::Download));
    assert_eq!(transfer_kind("sync"), Err(TransferError::UnknownTransferType));
}

#[test]
fn link_validity_is_one_second_to_seven_days() {
    assert_eq!(check_presign_expiry(0), Err(TransferError::InvalidExpiry));
    assert_eq!(check_presign_expiry(1), Ok(1));
    assert_eq!(check_presign_expiry(604800), Ok(604800));
    assert_eq!(check_presign_expiry(604801), Err(TransferError::InvalidExpiry));
}

#[test]
fn previews_are_limited_to_ten_mebibytes() {
    assert_eq!(check_preview_size(None), Ok(()));
    assert_eq!(check_preview_size(Some(10 * 1024 * 1024)), Ok(()));
    assert_eq!(check_preview_size(Some(10 * 1024 * 1024 + 1)), Err(TransferError::PreviewTooLarge));
}

#[test]
fn transfer_states() {
    assert_eq!(running_status(TransferKind::Upload), TransferStatus::Uploading);
    assert_eq!(running_status(TransferKind::Download), TransferStatus::Downloading);
    assert_eq!(status_after_error(true), TransferStatus::Cancelled);
    assert_eq!(status_after_error(false), TransferStatus::Failed);
    assert!(selects_directory("dir/"));
    assert!(!selects_directory("dir/file"));
}

#[test]
fn file_names_follow_path_components() {
    assert_eq!(file_name("dir/sub/file.txt"), "file.txt");
    assert_eq!(file_name("dir/sub/"), "sub");
    assert_eq!(file_name("dir/."), "dir");
    assert_eq!(file_name("dir/.."), "");
    assert_eq!(file_name("/"), "");
    assert_eq!(file_name(""), "");
}

#[test]
fn download_targets_name_the_file() {
    let t = download_target("/tmp/d", "dir", "dir/sub/file.txt").unwrap();
    assert_eq!(t.name, "file.txt");
    assert_eq!(t.from_path, "dir/sub/file.txt");
    assert_eq!(t.to_path, "/tmp/d/sub/file.txt");
    assert_eq!(download_target("/tmp/d", "", "../x").unwrap_err(), PathError::IllegalKey("../x".to_string()));
}

#[test]
fn registry_keeps_one_value_per_key() {
    let mut r: TransferRegistry<u32> = TransferRegistry::new();
    assert_eq!(r.get("a"), None);
    r.insert("a", 1);
    r.insert("b", 2);
    r.insert("a", 3);
    assert_eq!(r.get("a"), Some(&3));
    r.remove("a");
    assert_eq!(r.get("a"), None);
    assert_eq!(r.get("b"), Some(&2));
}

#[test]
fn stored_rows_round_trip() {
    let key = [3u8; 32];
    let nonce = [5u8; 12];
    let config = OssConfig {
        id: "id-1".to_string(),
        name: "main".to_string(),
        access_key: "ak".to_string(),
        secret_key: "s3cr3t".to_string(),
        endpoint: "http://localhost:9000".to_string(),
        sort: 2000,
        ..OssConfig::default()
    };
    let row = row_for_config(&key, &nonce, &config).unwrap();
    assert_ne!(row.secret_key_encrypted, "s3cr3t");
    let back = config_from_row(&key, row).unwrap();
    assert_eq!(back.secret_key, "s3cr3t");
    assert_eq!(back.id, "id-1");
    assert_eq!(back.sort, 2000);
    assert_eq!(back.region, "cn-north-1");
}

#[test]
fn positions_are_backfilled_in_thousands() {
    assert!(needs_sort_backfill(2, 2));
    assert!(!needs_sort_backfill(1, 1));
    assert!(!needs_sort_backfill(3, 2));
    assert_eq!(sort_value_for_position(0), 1000);
    assert_eq!(sort_value_for_position(4), 5000);
}

#[test]
fn cancelled_transfers_end_quietly() {
    let (status, reported) = outcome_after_error(true, "boom".to_string());
    assert_eq!(status, TransferStatus::Cancelled);
    assert_eq!(reported, Ok(()));
    let (status, reported) = outcome_after_error(false, "boom".to_string());
    assert_eq!(status, TransferStatus::Failed);
    assert_eq!(reported, Err("boom".to_string()));
}

#[test]
fn rows_load_in_order_until_one_fails() {
    let key = [3u8; 32];
    let nonce = [5u8; 12];
    let mut a = OssConfig::default();
    a.id = "a".to_string();
    a.secret_key = "one".to_string();
    let mut b = OssConfig::default();
    b.id = "b".to_string();
    b.secret_key = "two".to_string();
    let ra = row_for_config(&key, &nonce, &a).unwrap();
    let rb = row_for_config(&key, &nonce, &b).unwrap();
    let loaded = configs_from_rows(&key, &[ra.clone(), rb.clone()]).unwrap();
    assert_eq!(loaded.len(), 2);
    assert_eq!(loaded[0].id, "a");
    assert_eq!(loaded[0].secret_key, "one");
    assert_eq!(loaded[1].secret_key, "two");
    assert!(configs_from_rows(&key, &[]).unwrap().is_empty());
    let mut broken = rb.clone();
    broken.secret_key_encrypted = "no separator".to_string();
    let err = configs_from_rows(&key, &[ra, broken, rb]).unwrap_err();
    assert!(matches!(err, s3_client::secret::SecretError::MalformedCiphertext));
}
