use s3_client::chunking::{MultipartStep, MultipartUpload, RangedDownload};
use s3_client::local_path::upload_relative_path;

#[test]
fn uploaded_files_keep_the_chosen_folder_name() {
    assert_eq!(upload_relative_path("/home/u/pics/a/b.png", "/home/u/pics"), "pics/a/b.png");
    assert_eq!(upload_relative_path("/home/u/f.txt", "/home/u/f.txt"), "f.txt");
    assert_eq!(upload_relative_path("pics/a.png", "pics"), "pics/a.png");
    assert_eq!(upload_relative_path("/x", "/"), "x");
    assert_eq!(upload_relative_path("/c/d", "/a/b"), "c/d");
    assert_eq!(upload_relative_path("/home//u/./pics/b.png", "/home/u/pics/"), "pics/b.png");
}

#[test]
fn multipart_upload_numbers_parts_from_one() {
    let part = 5 * 1024 * 1024;
    let mut upload = MultipartUpload::new(2 * part as u64 + 10);
    assert_eq!(upload.before_read(false), MultipartStep::ReadChunk);
    assert_eq!(upload.after_read(part, false), MultipartStep::UploadPart { part_number: 1, length: part });
    assert_eq!(upload.after_upload(part, Some("\"e1\"")), MultipartStep::ReadChunk);
    assert_eq!(upload.after_read(part, false), MultipartStep::UploadPart { part_number: 2, length: part });
    assert_eq!(upload.after_upload(part, Some("e2")), MultipartStep::ReadChunk);
    assert_eq!(upload.after_read(10, false), MultipartStep::UploadPart { part_number: 3, length: 10 });
    assert_eq!(upload.after_upload(10, Some("e3")), MultipartStep::Complete);
    let parts = upload.completed_parts();
    assert_eq!(parts.len(), 3);
    assert_eq!(parts[0].part_number, 1);
    assert_eq!(parts[0].e_tag, "e1");
    assert_eq!(parts[2].part_number, 3);
    assert_eq!(upload.uploaded_bytes(), 2 * part as u64 + 10);
    assert_eq!(upload.total_size(), 2 * part as u64 + 10);
}

#[test]
fn multipart_upload_stops_on_cancel_end_or_missing_etag() {
    let mut upload = MultipartUpload::new(100);
    assert_eq!(upload.before_read(true), MultipartStep::Abort);
    assert_eq!(upload.after_read(0, true), MultipartStep::Complete);
    assert_eq!(upload.after_read(5, true), MultipartStep::Abort);
    assert_eq!(upload.after_upload(5, None), MultipartStep::MissingETag);
    assert_eq!(upload.uploaded_bytes(), 0);
    assert!(upload.completed_parts().is_empty());
}

#[test]
fn ranged_download_walks_the_object() {
    let mut d = RangedDownload::new(5_000_000);
    assert_eq!(d.next_range(), Some((0, 2_097_151)));
    d.record(2_097_152);
    assert_eq!(d.next_range(), Some((2_097_152, 4_194_303)));
    d.record(2_097_152);
    assert_eq!(d.next_range(), Some((4_194_304, 4_999_999)));
    d.record(805_696);
    assert_eq!(d.next_range(), None);
    assert_eq!(d.downloaded_bytes(), 5_000_000);
    assert_eq!(d.file_size(), 5_000_000);
}
