use s3_client::keys::{directory_marker_key, parent_remote_prefix, relative_key, safe_local_destination, PathError};
use s3_client::models::OssConfig;
use s3_client::oss::{ChecksumCalculation, DeletePlan, ListedObject, ObjectType, Oss, OssError};

#[test]
fn parent_prefix_of_nested_and_top_level_keys() {
    assert_eq!(parent_remote_prefix("dir/sub/file.txt"), "dir/sub");
    assert_eq!(parent_remote_prefix("/dir/sub/"), "dir");
    assert_eq!(parent_remote_prefix("file.txt"), "");
    assert_eq!(parent_remote_prefix(""), "");
}

#[test]
fn relative_key_below_base() {
    assert_eq!(relative_key("dir/sub/file.txt", "dir"), "sub/file.txt");
    assert_eq!(relative_key("/dir/sub/file.txt/", "/dir/"), "sub/file.txt");
    assert_eq!(relative_key("dirx/file.txt", "dir"), "dirx/file.txt");
    assert_eq!(relative_key("dir", "dir"), "dir");
    assert_eq!(relative_key("a/b", ""), "a/b");
}

#[test]
fn download_destination_edge_cases() {
    assert_eq!(safe_local_destination("/tmp/download/", "", "a/b").unwrap(), "/tmp/download/a/b");
    assert_eq!(safe_local_destination("", "", "a").unwrap(), "a");
    assert_eq!(safe_local_destination("/tmp", "dir", "dir/").unwrap(), "/tmp/dir");
    assert_eq!(safe_local_destination("/tmp", "dir", "/").unwrap_err(), PathError::EmptyDestination);
    assert_eq!(
        safe_local_destination("/tmp", "", "a//b").unwrap_err(),
        PathError::IllegalKey("a//b".to_string())
    );
    assert_eq!(
        safe_local_destination("/tmp", "", "./a").unwrap_err().message(),
        "非法对象路径: ./a"
    );
    assert_eq!(PathError::EmptyDestination.message(), "下载路径不能为空");
}

#[test]
fn directory_markers_end_with_one_slash() {
    assert_eq!(directory_marker_key("dir"), "dir/");
    assert_eq!(directory_marker_key("dir/"), "dir/");
    assert_eq!(Oss::alternate_directory_key("dir/"), "dir//");
}

#[test]
fn copy_source_is_percent_encoded() {
    assert_eq!(Oss::encode_copy_source("bucket", "a b/c~d.txt"), "bucket/a%20b/c~d.txt");
    assert_eq!(Oss::encode_copy_source("b", "文"), "b/%E6%96%87");
    assert_eq!(Oss::encode_copy_source("b", "x+y?z"), "b/x%2By%3Fz");
}

#[test]
fn prefixes_are_replaced_and_removed() {
    assert_eq!(Oss::replace_prefix("src/a/b.txt", "src/", "dst/"), "dst/a/b.txt");
    assert_eq!(Oss::replace_prefix("other/b.txt", "src/", "dst/"), "dst/");
    assert_eq!(Oss::remove_prefix("dir/", "dir/file.txt"), "file.txt");
    assert_eq!(Oss::remove_prefix("", "dir/file.txt"), "dir/file.txt");
    assert_eq!(Oss::remove_prefix("zzz/", "dir/file.txt"), "dir/file.txt");
}

#[test]
fn delete_batches_of_few_keys() {
    assert!(Oss::chunk_delete_keys(&[]).is_empty());
    let keys = vec!["a".to_string(), "b".to_string()];
    assert_eq!(Oss::chunk_delete_keys(&keys), vec![keys.clone()]);
    let thousand: Vec<String> = (0..1000).map(|i| i.to_string()).collect();
    assert_eq!(Oss::chunk_delete_keys(&thousand).len(), 1);
}

#[test]
fn client_needs_keys_and_endpoint() {
    let mut config = OssConfig::default();
    assert_eq!(Oss::new_with_config(&config).err(), Some(OssError::MissingCredentials));
    config.access_key = "ak".to_string();
    config.secret_key = "sk".to_string();
    assert_eq!(Oss::new_with_config(&config).err(), Some(OssError::MissingEndpoint));
    config.endpoint = "http://127.0.0.1:9000".to_string();
    config.path_style = "path".to_string();
    assert!(Oss::uses_path_style(&config));
    assert!(Oss::new_with_config(&config).is_ok());
    assert_eq!(OssError::MissingEndpoint.message(), "Endpoint 不能为空");
}

#[test]
fn client_is_built_from_the_connection() {
    let mut config = OssConfig::default();
    config.access_key = "ak".to_string();
    config.secret_key = "sk".to_string();
    config.endpoint = "http://127.0.0.1:9000".to_string();
    config.path_style = "virtual".to_string();
    let oss = Oss::new_with_config(&config).unwrap();
    let s = oss.settings();
    assert_eq!(s.region, "cn-north-1");
    assert_eq!(s.access_key, "ak");
    assert_eq!(s.secret_key, "sk");
    assert_eq!(s.endpoint, "http://127.0.0.1:9000");
    assert_eq!(s.provider_name, "custom");
    assert!(!s.force_path_style);
    assert_eq!(s.operation_timeout_secs, 30);
    assert_eq!(s.connect_timeout_secs, 10);
    assert_eq!(s.checksum_calculation, ChecksumCalculation::WhenRequired);
    config.path_style = "path".to_string();
    assert!(Oss::client_settings(&config).force_path_style);
}

#[test]
fn connection_test_lists_buckets_without_default_bucket() {
    let mut config = OssConfig::default();
    config.bucket = "  ".to_string();
    assert!(Oss::tests_by_listing_buckets(&config));
    config.bucket = "photos".to_string();
    assert!(!Oss::tests_by_listing_buckets(&config));
}

#[test]
fn directory_object_key_needs_a_name() {
    assert_eq!(Oss::directory_object_key("/a/b/").unwrap(), "a/b/");
    assert_eq!(Oss::directory_object_key("//"), Err(OssError::EmptyDirectoryName));
}

#[test]
fn objects_are_classified_and_deleted() {
    assert_eq!(Oss::classify_object("f", true, true, true), ObjectType::Object);
    assert_eq!(Oss::classify_object("d", false, false, true), ObjectType::Directory);
    assert_eq!(Oss::classify_object("x", false, false, false), ObjectType::NotFound);
    assert_eq!(Oss::classify_object("dir/", true, false, false), ObjectType::Directory);
    assert_eq!(Oss::classify_object("/", true, false, false), ObjectType::Object);
    assert_eq!(Oss::classify_object("dir/", false, false, false), ObjectType::NotFound);
    assert_eq!(Oss::deletion_plan(ObjectType::Directory, "d"), DeletePlan::Directory("d".to_string()));
    assert_eq!(Oss::deletion_plan(ObjectType::Object, "f"), DeletePlan::Object("f".to_string()));
    let marker_found = Oss::classify_object("dir/sub/", true, false, false);
    assert_eq!(Oss::deletion_plan(marker_found, "dir/sub/"), DeletePlan::Directory("dir/sub/".to_string()));
    assert_eq!(
        Oss::deletion_plan(ObjectType::NotFound, "x"),
        DeletePlan::Both("x".to_string(), "x/".to_string())
    );
}

#[test]
fn copy_keys_are_checked() {
    assert_eq!(Oss::copy_keys("/a", "b").unwrap(), ("a".to_string(), "b".to_string()));
    assert_eq!(Oss::copy_keys("/", "b"), Err(OssError::EmptyCopyKey));
    assert_eq!(Oss::copy_keys("/a", "a"), Err(OssError::SameCopyKeys));
}

#[test]
fn listing_pages_put_directories_first() {
    let objects = vec![ListedObject {
        key: "dir/readme".to_string(),
        size: Some(12),
        last_modified: "2024-01-01".to_string(),
    }];
    let list = Oss::file_list("dir/", Some("tok".to_string()), &["dir/sub/".to_string()], &objects);
    assert_eq!(list.next_token.as_deref(), Some("tok"));
    assert_eq!(list.objects.len(), 2);
    assert!(list.objects[0].is_dir);
    assert_eq!(list.objects[0].name, "sub");
    assert_eq!(list.objects[1].name, "readme");
    assert_eq!(list.objects[1].size, Some(12));
    assert_eq!(list.objects[1].content_type.as_deref(), Some("application/octet-stream"));
    assert_eq!(list.objects[1].last_modified.as_deref(), Some("2024-01-01"));
    assert_eq!(list.objects[0].size, None);
    assert_eq!(list.objects[0].last_modified, None);
    assert_eq!(list.objects[0].content_type, None);
    assert_eq!(Oss::first_file(&list), Some(1));
    assert_eq!(Oss::page_size(None), 100);
    assert_eq!(Oss::page_size(Some(7)), 7);
}

#[test]
fn content_types_come_from_extensions() {
    assert_eq!(Oss::content_type_for("a/b/photo.png"), "image/png");
    assert_eq!(Oss::content_type_for("notes"), "application/octet-stream");
}

#[test]
fn permissions_follow_the_probes() {
    let p = Oss::permissions_from_probes(true, true, true, true, false);
    assert!(p.list && p.delete && p.write && p.read);
    let q = Oss::permissions_from_probes(true, false, true, true, false);
    assert!(!q.write && !q.read);
    let r = Oss::permissions_from_probes(false, false, false, false, true);
    assert!(r.read && !r.list);
    assert_eq!(Oss::probe_object_key("id"), ".s3-client-permission-probe/id.tmp");
}

#[test]
fn transfer_sizes_and_ranges() {
    assert!(!Oss::uploads_in_parts(false, 100 * 1024 * 1024));
    assert!(!Oss::uploads_in_parts(true, 5 * 1024 * 1024));
    assert!(Oss::uploads_in_parts(true, 5 * 1024 * 1024 + 1));
    assert_eq!(Oss::part_etag("\"abc\""), "abc");
    assert!(Oss::downloads_whole(2 * 1024 * 1024));
    assert!(!Oss::downloads_whole(2 * 1024 * 1024 + 1));
    assert_eq!(Oss::download_range(0, 5_000_000), (0, 2_097_151));
    assert_eq!(Oss::download_range(4_194_304, 5_000_000), (4_194_304, 4_999_999));
    assert_eq!(Oss::range_header(0, 2_097_151), "bytes=0-2097151");
    assert_eq!(Oss::range_header(10, 10), "bytes=10-10");
}
