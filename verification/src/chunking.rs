//! The decisions of chunked transfers: a multipart upload reads the file a part at
//! a time and numbers its parts; a ranged download asks for one chunk at a time.
use vstd::prelude::*;
use crate::oss::Oss;
use crate::text::trim_char;

verus! {

/// A part that the store has acknowledged, as the completion request lists it.
#[derive(Debug, Clone)]
pub struct CompletedPart {
    pub part_number: i32,
    pub e_tag: String,
}

/// What a multipart upload does next.
#[derive(Debug, Clone, Copy, PartialEq, Eq, Structural)]
pub enum MultipartStep {
    /// Read the next part of the file.
    ReadChunk,
    /// Upload the bytes just read as this part.
    UploadPart { part_number: i32, length: usize },
    /// Complete the upload with the acknowledged parts.
    Complete,
    /// Abort the upload: the task was cancelled.
    Abort,
    /// Fail: the store acknowledged a part without an ETag.
    MissingETag,
}

/// The state of a multipart upload: how many bytes the store has acknowledged and
/// the parts, numbered from 1 without gaps.
pub struct MultipartUpload {
    total_size: u64,
    uploaded: u64,
    parts: Vec<CompletedPart>,
}

/// Whether `parts` are numbered 1, 2, 3, ... in order.
pub open spec fn numbered_from_one(parts: Seq<CompletedPart>) -> bool {
    forall|i: int| 0 <= i < parts.len() ==> (#[trigger] parts[i]).part_number == i + 1
}

impl MultipartUpload {
    /// The size of the file being uploaded.
    pub closed spec fn total_size_view(&self) -> u64 {
        self.total_size
    }

    /// The size of the file being uploaded, as progress reports it.
    pub fn total_size(&self) -> (n: u64)
        ensures
            n == self.total_size_view(),
    {
        self.total_size
    }

    /// The bytes acknowledged so far.
    pub closed spec fn uploaded_view(&self) -> nat {
        self.uploaded as nat
    }

    /// The parts acknowledged so far.
    pub closed spec fn parts_view(&self) -> Seq<CompletedPart> {
        self.parts@
    }

    /// The state's invariant: parts numbered from 1 in order.
    pub open spec fn wf(&self) -> bool {
        numbered_from_one(self.parts_view())
    }

    /// A multipart upload of a file of `total_size` bytes, nothing sent yet.
    pub fn new(total_size: u64) -> (m: Self)
        ensures
            m.total_size_view() == total_size,
            m.uploaded_view() == 0,
            m.parts_view().len() == 0,
            m.wf(),
    {
        MultipartUpload { total_size, uploaded: 0, parts: Vec::new() }
    }

    /// The bytes acknowledged so far, as progress reports them.
    pub fn uploaded_bytes(&self) -> (n: u64)
        ensures
            n == self.uploaded_view(),
    {
        self.uploaded
    }

    /// The number that the next part gets.
    pub fn next_part_number(&self) -> (n: i32)
        requires
            self.parts_view().len() < i32::MAX,
        ensures
            n == self.parts_view().len() + 1,
    {
        (self.parts.len() + 1) as i32
    }

    /// The step before each read: abort where the task was cancelled, else read.
    pub fn before_read(&self, cancelled: bool) -> (s: MultipartStep)
        ensures
            s == (if cancelled { MultipartStep::Abort } else { MultipartStep::ReadChunk }),
    {
        if cancelled {
            MultipartStep::Abort
        } else {
            MultipartStep::ReadChunk
        }
    }

    /// The step after a read of `bytes_read` bytes: complete at the end of the file,
    /// abort where the task was cancelled, else upload the bytes as the next part.
    pub fn after_read(&self, bytes_read: usize, cancelled: bool) -> (s: MultipartStep)
        requires
            self.parts_view().len() < i32::MAX,
        ensures
            s == (if bytes_read == 0 {
                MultipartStep::Complete
            } else if cancelled {
                MultipartStep::Abort
            } else {
                MultipartStep::UploadPart { part_number: (self.parts_view().len() + 1) as i32, length: bytes_read }
            }),
    {
        if bytes_read == 0 {
            MultipartStep::Complete
        } else if cancelled {
            MultipartStep::Abort
        } else {
            MultipartStep::UploadPart { part_number: self.next_part_number(), length: bytes_read }
        }
    }

    /// The step after the store acknowledged the last part read, of `length` bytes,
    /// with `e_tag`: without an ETag the upload fails; otherwise the part is recorded
    /// (its ETag without surrounding `"`) and the upload completes where the part was
    /// shorter than a full part, else reads on.
    pub fn after_upload(&mut self, length: usize, e_tag: Option<&str>) -> (s: MultipartStep)
        requires
            old(self).wf(),
            old(self).parts_view().len() < i32::MAX,
            old(self).uploaded_view() + length <= u64::MAX,
        ensures
            final(self).wf(),
            final(self).total_size_view() == old(self).total_size_view(),
            match e_tag {
                None => s == MultipartStep::MissingETag && final(self).parts_view() == old(self).parts_view()
                    && final(self).uploaded_view() == old(self).uploaded_view(),
                Some(t) => {
                    &&& final(self).parts_view().len() == old(self).parts_view().len() + 1
                    &&& final(self).parts_view().drop_last() == old(self).parts_view()
                    &&& final(self).parts_view().last().part_number == old(self).parts_view().len() + 1
                    &&& final(self).parts_view().last().e_tag@ == trim_char(t@, '"')
                    &&& final(self).uploaded_view() == old(self).uploaded_view() + length
                    &&& s == (if length < Oss::PART_SIZE { MultipartStep::Complete } else { MultipartStep::ReadChunk })
                },
            },
    {
        match e_tag {
            None => MultipartStep::MissingETag,
            Some(t) => {
                let part_number = self.next_part_number();
                let ghost before = self.parts@;
                self.parts.push(CompletedPart { part_number, e_tag: Oss::part_etag(t) });
                self.uploaded = self.uploaded + length as u64;
                proof {
                    assert(self.parts@.drop_last() =~= before);
                    assert forall|i: int| 0 <= i < self.parts@.len() implies (#[trigger] self.parts@[i]).part_number == i + 1 by {
                        if i < before.len() {
                            assert(self.parts@[i] == before[i]);
                        }
                    }
                }
                if length < Oss::PART_SIZE {
                    MultipartStep::Complete
                } else {
                    MultipartStep::ReadChunk
                }
            },
        }
    }

    /// The acknowledged parts, in the order in which the completion request lists
    /// them.
    pub fn completed_parts(&self) -> (parts: &Vec<CompletedPart>)
        ensures
            parts@ == self.parts_view(),
    {
        &self.parts
    }
}

/// Parts numbered from 1 in order are already sorted by part number, so sorting them
/// before completion changes nothing.
pub proof fn lemma_parts_sorted(parts: Seq<CompletedPart>)
    requires
        numbered_from_one(parts),
    ensures
        forall|i: int, j: int| 0 <= i < j < parts.len() ==> parts[i].part_number < parts[j].part_number,
{
    assert forall|i: int, j: int| 0 <= i < j < parts.len() implies parts[i].part_number < parts[j].part_number by {
        assert(parts[i].part_number == i + 1);
        assert(parts[j].part_number == j + 1);
    }
}

/// The state of a ranged download: the object's size and the bytes received.
pub struct RangedDownload {
    file_size: u64,
    downloaded: u64,
}

impl RangedDownload {
    /// The size of the object.
    pub closed spec fn file_size_view(&self) -> u64 {
        self.file_size
    }

    /// The size of the object, as progress reports it.
    pub fn file_size(&self) -> (n: u64)
        ensures
            n == self.file_size_view(),
    {
        self.file_size
    }

    /// The bytes received so far.
    pub closed spec fn downloaded_view(&self) -> nat {
        self.downloaded as nat
    }

    /// A ranged download of an object of `file_size` bytes, nothing received.
    pub fn new(file_size: u64) -> (d: Self)
        ensures
            d.file_size_view() == file_size,
            d.downloaded_view() == 0,
    {
        RangedDownload { file_size, downloaded: 0 }
    }

    /// The bytes received so far.
    pub fn downloaded_bytes(&self) -> (n: u64)
        ensures
            n == self.downloaded_view(),
    {
        self.downloaded
    }

    /// The inclusive byte range of the next request, or `None` once the whole object
    /// has arrived.
    pub fn next_range(&self) -> (r: Option<(u64, u64)>)
        requires
            self.downloaded_view() + 2097152 <= u64::MAX,
        ensures
            self.downloaded_view() >= self.file_size_view() ==> r is None,
            self.downloaded_view() < self.file_size_view() ==> r == Some(
                (
                    self.downloaded_view() as u64,
                    (if self.downloaded_view() + 2097152 - 1 < self.file_size_view() - 1 {
                        self.downloaded_view() + 2097152 - 1
                    } else {
                        self.file_size_view() - 1
                    }) as u64,
                ),
            ),
            self.downloaded_view() < self.file_size_view() ==> (r matches Some((a, b)) && (a as nat, b as nat)
                == download_ranges(self.file_size_view() as nat, self.downloaded_view())[0]),
    {
        if self.downloaded < self.file_size {
            Some(Oss::download_range(self.downloaded, self.file_size))
        } else {
            None
        }
    }

    /// Records the arrival of `length` more bytes.
    pub fn record(&mut self, length: u64)
        requires
            old(self).downloaded_view() + length <= u64::MAX,
        ensures
            final(self).downloaded_view() == old(self).downloaded_view() + length,
            final(self).file_size_view() == old(self).file_size_view(),
    {
        self.downloaded = self.downloaded + length;
    }
}

} // verus!

verus! {

/// The lengths of the parts that a multipart upload of a `total`-byte file sends
/// once `uploaded` bytes are acknowledged, where each read fills a part or reaches
/// the end of the file (as the steps above go): a read of nothing completes the
/// upload, and so does a part shorter than a full one.
pub open spec fn upload_parts(total: nat, uploaded: nat) -> Seq<nat>
    decreases total - uploaded,
{
    if uploaded >= total {
        seq![]
    } else if total - uploaded < 5242880 {
        seq![(total - uploaded) as nat]
    } else {
        seq![5242880nat] + upload_parts(total, uploaded + 5242880)
    }
}

proof fn lemma_upload_parts_from(total: nat, uploaded: nat)
    requires
        uploaded <= total,
    ensures
        ({
            let parts = upload_parts(total, uploaded);
            let n = parts.len() as int;
            &&& n == (total - uploaded + 5242879) / 5242880
            &&& forall|i: int| 0 <= i < n - 1 ==> #[trigger] parts[i] == 5242880
            &&& n > 0 ==> parts[n - 1] == total - uploaded - (n - 1) * 5242880
        }),
    decreases total - uploaded,
{
    let r = total - uploaded;
    if uploaded >= total {
    } else if r < 5242880 {
    } else {
        lemma_upload_parts_from(total, uploaded + 5242880);
        let rest = upload_parts(total, uploaded + 5242880);
        let parts = upload_parts(total, uploaded);
        assert(parts == seq![5242880nat] + rest);
        assert forall|i: int| 0 <= i < parts.len() - 1 implies #[trigger] parts[i] == 5242880 by {
            if i > 0 {
                assert(parts[i] == rest[i - 1]);
            }
        }
        if rest.len() > 0 {
            assert(parts[parts.len() - 1] == rest[rest.len() - 1]);
        }
    }
}

/// A multipart upload of `total` bytes, read a full part at a time, sends
/// `ceil(total / 5 MiB)` parts: all but the last are full parts, and the last holds
/// what is left, so that together they hold the whole file.
pub proof fn lemma_upload_part_count(total: nat)
    ensures
        ({
            let parts = upload_parts(total, 0);
            let n = parts.len() as int;
            &&& n == (total + 5242879) / 5242880
            &&& forall|i: int| 0 <= i < n - 1 ==> #[trigger] parts[i] == 5242880
            &&& n > 0 ==> parts[n - 1] == total - (n - 1) * 5242880
        }),
{
    lemma_upload_parts_from(total, 0);
}

/// The inclusive byte ranges that a ranged download of an object of `size` bytes
/// requests once `downloaded` bytes have arrived, where each response holds the
/// whole range asked for (as `next_range` and `record` go).
pub open spec fn download_ranges(size: nat, downloaded: nat) -> Seq<(nat, nat)>
    decreases size - downloaded,
{
    if downloaded >= size {
        seq![]
    } else if downloaded + 2097152 < size {
        seq![(downloaded, (downloaded + 2097151) as nat)] + download_ranges(size, downloaded + 2097152)
    } else {
        seq![(downloaded, (size - 1) as nat)]
    }
}

proof fn lemma_download_ranges_from(size: nat, downloaded: nat)
    requires
        downloaded <= size,
    ensures
        ({
            let ranges = download_ranges(size, downloaded);
            &&& ranges.len() == (size - downloaded + 2097151) / 2097152
            &&& forall|i: int| 0 <= i < ranges.len() ==> {
                &&& (#[trigger] ranges[i]).0 == downloaded + i * 2097152
                &&& ranges[i].1 + 1 == (if downloaded + (i + 1) * 2097152 < size {
                    downloaded + (i + 1) * 2097152
                } else {
                    size as int
                })
            }
        }),
    decreases size - downloaded,
{
    if downloaded >= size {
    } else if downloaded + 2097152 < size {
        lemma_download_ranges_from(size, downloaded + 2097152);
        let rest = download_ranges(size, downloaded + 2097152);
        let ranges = download_ranges(size, downloaded);
        assert forall|i: int| 0 <= i < ranges.len() implies {
            &&& (#[trigger] ranges[i]).0 == downloaded + i * 2097152
            &&& ranges[i].1 + 1 == (if downloaded + (i + 1) * 2097152 < size {
                downloaded + (i + 1) * 2097152
            } else {
                size as int
            })
        } by {
            if i > 0 {
                assert(ranges[i] == rest[i - 1]);
            }
        }
    } else {
    }
}

/// A ranged download of an object of `size` bytes makes `ceil(size / 2 MiB)`
/// requests; after the `i`-th, `min(i * 2 MiB, size)` bytes have arrived, so the
/// requests cover the object without gaps or overlaps.
pub proof fn lemma_download_request_count(size: nat)
    ensures
        ({
            let ranges = download_ranges(size, 0);
            &&& ranges.len() == (size + 2097151) / 2097152
            &&& forall|i: int| 0 <= i < ranges.len() ==> {
                &&& (#[trigger] ranges[i]).0 == i * 2097152
                &&& ranges[i].1 + 1 == (if (i + 1) * 2097152 < size { (i + 1) * 2097152 } else { size as int })
            }
        }),
{
    lemma_download_ranges_from(size, 0);
}

} // verus!
