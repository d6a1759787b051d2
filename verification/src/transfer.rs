//! Transfer bookkeeping: the checks made before transfers are queued, the states a
//! transfer goes through, where downloads land, and the registry of running tasks.
use vstd::prelude::*;
use crate::keys::{local_destination, safe_local_destination, split_char, PathError};
use crate::oss::{file_name_of, last_named_segment};
use crate::text::{chars_of, decimal, decimal_string, push_str, same_text, string_of, string_of_str};

verus! {

/// How many transfers of each kind run at once.
pub const MAX_CONCURRENT: usize = 5;

/// How many transfers of each kind may wait in the queue.
pub const TRANSFER_QUEUE_CAPACITY: usize = 1000;

/// The largest object, in bytes, that is fetched whole for a preview: 10 MiB.
pub const PREVIEW_DOWNLOAD_MAX_SIZE: i64 = 10485760;

/// The longest validity of a shared link, in seconds: seven days.
pub const PRESIGN_MAX_SECONDS: u64 = 604800;

/// Where a transfer stands.
#[derive(Debug, Clone, Copy, PartialEq, Eq, Structural)]
pub enum TransferStatus {
    Waiting,
    Uploading,
    Downloading,
    Completed,
    Failed,
    Cancelled,
}

/// Which way a transfer goes.
#[derive(Debug, Clone, Copy, PartialEq, Eq, Structural)]
pub enum TransferKind {
    Upload,
    Download,
}

/// Why a transfer request was refused.
#[derive(Debug, Clone, PartialEq, Eq)]
pub enum TransferError {
    /// No file was found to upload.
    NoFilesToUpload,
    /// More files than the queue holds.
    TooManyTasks,
    /// The queue of this kind has room for only this many more tasks.
    QueueFull(TransferKind, usize),
    /// No object was chosen for download.
    NothingSelected,
    /// The transfer type is neither `upload` nor `download`.
    UnknownTransferType,
    /// A shared link's validity is not between one second and seven days.
    InvalidExpiry,
    /// The object is too large to preview.
    PreviewTooLarge,
    /// No running task has the id.
    TaskNotFound,
}

impl TransferError {
    /// The text of the message shown to the user; the queue capacity and the room
    /// left are written in decimal.
    pub open spec fn message_text(&self) -> Seq<char> {
        match self {
            TransferError::NoFilesToUpload => "未找到可上传的文件"@,
            TransferError::TooManyTasks => "传输队列最多支持 "@ + decimal(TRANSFER_QUEUE_CAPACITY as nat) + " 个等待任务"@,
            TransferError::QueueFull(kind, room) => (match kind {
                TransferKind::Upload => "上传队列剩余容量不足，当前最多还能添加 "@,
                TransferKind::Download => "下载队列剩余容量不足，当前最多还能添加 "@,
            }) + decimal(room as nat) + " 个任务"@,
            TransferError::NothingSelected => "请选择要下载的文件"@,
            TransferError::UnknownTransferType => "未知传输类型"@,
            TransferError::InvalidExpiry => "链接有效期必须在 1 秒到 7 天之间"@,
            TransferError::PreviewTooLarge => "文件过大，请使用下载功能保存到本地"@,
            TransferError::TaskNotFound => "未找到可取消的传输任务"@,
        }
    }

    /// The message shown to the user.
    pub fn message(&self) -> (m: String)
        ensures
            m@ == self.message_text(),
    {
        match self {
            TransferError::NoFilesToUpload => "未找到可上传的文件".to_string(),
            TransferError::TooManyTasks => {
                let mut m = "传输队列最多支持 ".to_string();
                push_str(&mut m, decimal_string(TRANSFER_QUEUE_CAPACITY as u64).as_str());
                push_str(&mut m, " 个等待任务");
                m
            },
            TransferError::QueueFull(kind, room) => {
                let mut m = match kind {
                    TransferKind::Upload => "上传队列剩余容量不足，当前最多还能添加 ".to_string(),
                    TransferKind::Download => "下载队列剩余容量不足，当前最多还能添加 ".to_string(),
                };
                push_str(&mut m, decimal_string(*room as u64).as_str());
                push_str(&mut m, " 个任务");
                m
            },
            TransferError::NothingSelected => "请选择要下载的文件".to_string(),
            TransferError::UnknownTransferType => "未知传输类型".to_string(),
            TransferError::InvalidExpiry => "链接有效期必须在 1 秒到 7 天之间".to_string(),
            TransferError::PreviewTooLarge => "文件过大，请使用下载功能保存到本地".to_string(),
            TransferError::TaskNotFound => "未找到可取消的传输任务".to_string(),
        }
    }
}

/// An upload of `count` files may be queued: there is at least one, and no more than
/// the queue holds.
pub fn check_upload_batch(count: usize) -> (r: Result<(), TransferError>)
    ensures
        count == 0 ==> r == Err::<(), TransferError>(TransferError::NoFilesToUpload),
        count > TRANSFER_QUEUE_CAPACITY ==> r == Err::<(), TransferError>(TransferError::TooManyTasks),
        0 < count <= TRANSFER_QUEUE_CAPACITY ==> r is Ok,
{
    if count == 0 {
        return Err(TransferError::NoFilesToUpload);
    }
    if count > TRANSFER_QUEUE_CAPACITY {
        return Err(TransferError::TooManyTasks);
    }
    Ok(())
}

/// A download of `count` selected keys may start: at least one is selected.
pub fn check_download_selection(count: usize) -> (r: Result<(), TransferError>)
    ensures
        count == 0 <==> r == Err::<(), TransferError>(TransferError::NothingSelected),
        count > 0 <==> r is Ok,
{
    if count == 0 {
        Err(TransferError::NothingSelected)
    } else {
        Ok(())
    }
}

/// `count` tasks fit in a queue of the kind that has room for `room` more.
pub fn check_queue_room(kind: TransferKind, count: usize, room: usize) -> (r: Result<(), TransferError>)
    ensures
        count > room ==> r == Err::<(), TransferError>(TransferError::QueueFull(kind, room)),
        count <= room ==> r is Ok,
{
    if count > room {
        Err(TransferError::QueueFull(kind, room))
    } else {
        Ok(())
    }
}

/// The kind that a retried transfer's type names.
pub fn transfer_kind(transfer_type: &str) -> (r: Result<TransferKind, TransferError>)
    ensures
        transfer_type@ == "upload"@ ==> r == Ok::<TransferKind, TransferError>(TransferKind::Upload),
        transfer_type@ == "download"@ ==> r == Ok::<TransferKind, TransferError>(TransferKind::Download),
        transfer_type@ != "upload"@ && transfer_type@ != "download"@ ==> r == Err::<TransferKind, TransferError>(
            TransferError::UnknownTransferType,
        ),
{
    proof {
        reveal_strlit("upload");
        reveal_strlit("download");
        assert("upload"@.len() == 6);
        assert("download"@.len() == 8);
    }
    if same_text(transfer_type, "upload") {
        Ok(TransferKind::Upload)
    } else if same_text(transfer_type, "download") {
        Ok(TransferKind::Download)
    } else {
        Err(TransferError::UnknownTransferType)
    }
}

/// The validity of a shared link: between one second and seven days.
pub fn check_presign_expiry(expires_seconds: u64) -> (r: Result<u64, TransferError>)
    ensures
        (expires_seconds == 0 || expires_seconds > PRESIGN_MAX_SECONDS) ==> r == Err::<u64, TransferError>(
            TransferError::InvalidExpiry,
        ),
        (0 < expires_seconds <= PRESIGN_MAX_SECONDS) ==> r == Ok::<u64, TransferError>(expires_seconds),
{
    if expires_seconds == 0 || expires_seconds > PRESIGN_MAX_SECONDS {
        Err(TransferError::InvalidExpiry)
    } else {
        Ok(expires_seconds)
    }
}

/// An object may be fetched whole for a preview unless its reported length exceeds
/// 10 MiB; an unreported length counts as 0.
pub fn check_preview_size(content_length: Option<i64>) -> (r: Result<(), TransferError>)
    ensures
        (match content_length {
            Some(n) => n,
            None => 0,
        }) > PREVIEW_DOWNLOAD_MAX_SIZE <==> r == Err::<(), TransferError>(TransferError::PreviewTooLarge),
        r is Ok || r == Err::<(), TransferError>(TransferError::PreviewTooLarge),
{
    let length = match content_length {
        Some(n) => n,
        None => 0,
    };
    if length > PREVIEW_DOWNLOAD_MAX_SIZE {
        Err(TransferError::PreviewTooLarge)
    } else {
        Ok(())
    }
}

/// The state of a transfer while it runs.
pub fn running_status(kind: TransferKind) -> (s: TransferStatus)
    ensures
        s == (match kind {
            TransferKind::Upload => TransferStatus::Uploading,
            TransferKind::Download => TransferStatus::Downloading,
        }),
{
    match kind {
        TransferKind::Upload => TransferStatus::Uploading,
        TransferKind::Download => TransferStatus::Downloading,
    }
}

/// The state of a transfer that stopped with an error: cancelled where its task was
/// cancelled, failed otherwise.
pub fn status_after_error(cancelled: bool) -> (s: TransferStatus)
    ensures
        s == (if cancelled { TransferStatus::Cancelled } else { TransferStatus::Failed }),
{
    if cancelled {
        TransferStatus::Cancelled
    } else {
        TransferStatus::Failed
    }
}

/// How a transfer that stopped with `error` ends: its state, and what the worker
/// reports. A cancelled task ends quietly; any other error is reported.
pub fn outcome_after_error(cancelled: bool, error: String) -> (r: (TransferStatus, Result<(), String>))
    ensures
        r.0 == (if cancelled { TransferStatus::Cancelled } else { TransferStatus::Failed }),
        cancelled ==> r.1 is Ok,
        !cancelled ==> r.1 == Err::<(), String>(error),
{
    let status = status_after_error(cancelled);
    if cancelled {
        (status, Ok(()))
    } else {
        (status, Err(error))
    }
}

/// Whether a selected key is a directory whose objects are all downloaded: it ends
/// with `/`.
pub fn selects_directory(remote_key: &str) -> (b: bool)
    ensures
        b == (remote_key@.len() > 0 && remote_key@.last() == '/'),
{
    let cs = chars_of(remote_key);
    cs.len() > 0 && cs[cs.len() - 1] == '/'
}

proof fn lemma_split_at_last(s: Seq<char>, c: char, i: int)
    requires
        0 <= i < s.len(),
        s[i] == c,
        forall|k: int| i < k < s.len() ==> s[k] != c,
    ensures
        split_char(s, c) == split_char(s.take(i), c).push(s.skip(i + 1)),
    decreases s.len(),
{
    if i == s.len() - 1 {
        assert(s.drop_last() =~= s.take(i));
        assert(s.skip(i + 1) =~= Seq::<char>::empty());
    } else {
        lemma_split_at_last(s.drop_last(), c, i);
        assert(s.drop_last().take(i) =~= s.take(i));
        let rest = split_char(s.drop_last(), c);
        assert(rest.last() == s.drop_last().skip(i + 1));
        assert(s.drop_last().skip(i + 1).push(s.last()) =~= s.skip(i + 1));
        assert(rest.update(rest.len() - 1, rest.last().push(s.last())) =~= split_char(s.take(i), c).push(s.skip(i + 1)));
    }
}

proof fn lemma_split_without(s: Seq<char>, c: char)
    requires
        forall|k: int| 0 <= k < s.len() ==> s[k] != c,
    ensures
        split_char(s, c) == seq![s],
    decreases s.len(),
{
    if s.len() > 0 {
        lemma_split_without(s.drop_last(), c);
        assert(s.drop_last().push(s.last()) =~= s);
        assert(seq![s.drop_last()].update(0, s.drop_last().push(s.last())) =~= seq![s]);
    } else {
        assert(s =~= Seq::<char>::empty());
    }
}

/// The last named component of `path` (`Path::file_name` on Unix, lossily as text),
/// or empty where there is none.
pub fn file_name(path: &str) -> (name: String)
    ensures
        name@ == (match file_name_of(path@) {
            Some(n) => n,
            None => Seq::<char>::empty(),
        }),
{
    let cs = chars_of(path);
    let mut end = cs.len();
    proof {
        assert(cs@.take(end as int) =~= cs@);
    }
    loop
        invariant
            end <= cs@.len(),
            cs@ == path@,
            last_named_segment(split_char(cs@, '/')) == last_named_segment(split_char(cs@.take(end as int), '/')),
        decreases end,
    {
        let mut start = end;
        while start > 0 && cs[start - 1] != '/'
            invariant
                start <= end <= cs@.len(),
                forall|k: int| start <= k < end ==> cs@[k] != '/',
            decreases start,
        {
            start = start - 1;
        }
        let ghost t = cs@.take(end as int);
        let ghost seg = cs@.subrange(start as int, end as int);
        proof {
            assert(t.skip(start as int) =~= seg);
            if start > 0 {
                lemma_split_at_last(t, '/', start - 1);
                assert(t.take(start - 1) =~= cs@.take(start - 1));
                assert(t.skip(start as int) =~= seg);
            } else {
                lemma_split_without(t, '/');
                assert(t =~= seg);
            }
        }
        let len = end - start;
        if len == 0 || (len == 1 && cs[start] == '.') {
            proof {
                if len == 1 {
                    assert(seg =~= seq!['.']);
                }
                if start == 0 {
                    assert(split_char(t, '/').drop_last() =~= Seq::<Seq<char>>::empty());
                    assert(last_named_segment(Seq::<Seq<char>>::empty()) is None);
                } else {
                    assert(split_char(t, '/').drop_last() =~= split_char(cs@.take(start - 1), '/'));
                }
            }
            if start == 0 {
                return String::new();
            }
            end = start - 1;
        } else if len == 2 && cs[start] == '.' && cs[start + 1] == '.' {
            assert(seg =~= seq!['.', '.']);
            return String::new();
        } else {
            proof {
                assert(seg.len() > 0);
                if len == 1 {
                    assert(seg[0] == cs@[start as int]);
                    assert(seg != seq!['.']);
                }
                if len == 2 {
                    assert(seg[0] == cs@[start as int]);
                    assert(seg[1] == cs@[start + 1]);
                    assert(seq!['.', '.'][0] == '.' && seq!['.', '.'][1] == '.');
                    assert(seg != seq!['.', '.']);
                }
                assert(seg.len() != 1 ==> seg != seq!['.']);
                assert(seg.len() != 2 ==> seg != seq!['.', '.']);
                assert(split_char(t, '/').last() == seg);
            }
            return string_of(cs.as_slice(), start, end);
        }
    }
}

/// Where a downloaded object goes and how its task is shown.
#[derive(Debug, Clone)]
pub struct DownloadTarget {
    /// The name shown for the task: the key's last component.
    pub name: String,
    /// The object's key.
    pub from_path: String,
    /// The local file written.
    pub to_path: String,
}

/// The target of downloading `key` from below `base_remote` into `local_root`.
pub fn download_target(local_root: &str, base_remote: &str, key: &str) -> (r: Result<DownloadTarget, PathError>)
    ensures
        match (r, local_destination(local_root@, base_remote@, key@)) {
            (Ok(t), Ok(dest)) => t.to_path@ == dest && t.from_path@ == key@ && t.name@ == (match file_name_of(key@) {
                Some(n) => n,
                None => Seq::<char>::empty(),
            }),
            (Err(PathError::EmptyDestination), Err(PathError::EmptyDestination)) => true,
            (Err(PathError::IllegalKey(k)), Err(PathError::IllegalKey(_))) => k@ == key@,
            _ => false,
        },
{
    let to_path = safe_local_destination(local_root, base_remote, key)?;
    Ok(DownloadTarget { name: file_name(key), from_path: string_of_str(key), to_path })
}

/// The value that `key` has in `entries`: that of its last entry, if any.
pub open spec fn lookup<T>(entries: Seq<(String, T)>, key: Seq<char>) -> Option<T>
    decreases entries.len(),
{
    if entries.len() == 0 {
        None
    } else if entries.last().0@ == key {
        Some(entries.last().1)
    } else {
        lookup(entries.drop_last(), key)
    }
}

/// Values kept under text keys, one per key: the cancellation handles of running
/// transfers, or the clients of connections.
pub struct TransferRegistry<T> {
    entries: Vec<(String, T)>,
}

impl<T> TransferRegistry<T> {
    /// The value kept under `key`, if any.
    pub closed spec fn value_of(&self, key: Seq<char>) -> Option<T> {
        lookup(self.entries@, key)
    }

    /// An empty registry.
    pub fn new() -> (r: Self)
        ensures
            forall|k: Seq<char>| r.value_of(k) is None,
    {
        TransferRegistry { entries: Vec::new() }
    }

    /// Keeps `value` under `key`, in place of any earlier one.
    pub fn insert(&mut self, key: &str, value: T)
        ensures
            final(self).value_of(key@) == Some(value),
            forall|k: Seq<char>| k != key@ ==> final(self).value_of(k) == old(self).value_of(k),
    {
        let ghost before = self.entries@;
        self.entries.push((string_of_str(key), value));
        proof {
            assert(self.entries@.drop_last() =~= before);
        }
    }

    /// The value kept under `key`, if any.
    pub fn get(&self, key: &str) -> (r: Option<&T>)
        ensures
            match self.value_of(key@) {
                Some(v) => r == Some(&v),
                None => r is None,
            },
    {
        let mut i = self.entries.len();
        proof {
            assert(self.entries@.take(i as int) =~= self.entries@);
        }
        while i > 0
            invariant
                i <= self.entries@.len(),
                lookup(self.entries@, key@) == lookup(self.entries@.take(i as int), key@),
            decreases i,
        {
            proof {
                assert(self.entries@.take(i as int).drop_last() =~= self.entries@.take(i - 1));
            }
            if same_text(self.entries[i - 1].0.as_str(), key) {
                return Some(&self.entries[i - 1].1);
            }
            i = i - 1;
        }
        None
    }

    /// Drops whatever is kept under `key`.
    pub fn remove(&mut self, key: &str)
        ensures
            final(self).value_of(key@) is None,
            forall|k: Seq<char>| k != key@ ==> final(self).value_of(k) == old(self).value_of(k),
    {
        let mut rest: Vec<(String, T)> = Vec::new();
        std::mem::swap(&mut rest, &mut self.entries);
        let ghost all = rest@;
        let mut kept: Vec<(String, T)> = Vec::new();
        let ghost mut i: int = 0;
        proof {
            assert(all.skip(0) =~= all);
        }
        while rest.len() > 0
            invariant
                0 <= i <= all.len(),
                rest@ == all.skip(i),
                forall|k: Seq<char>| k != key@ ==> lookup(kept@, k) == lookup(all.take(i), k),
                lookup(kept@, key@) is None,
            decreases rest@.len(),
        {
            let ghost before = kept@;
            let e = rest.remove(0);
            proof {
                assert(all.take(i + 1).drop_last() =~= all.take(i));
                assert(all.take(i + 1).last() == e);
                assert(rest@ =~= all.skip(i + 1));
            }
            let ghost entry = e;
            if !same_text(e.0.as_str(), key) {
                kept.push(e);
                proof {
                    assert(kept@.drop_last() =~= before);
                    assert(kept@.last() == entry);
                    assert forall|k: Seq<char>| k != key@ implies lookup(kept@, k) == lookup(all.take(i + 1), k) by {
                        assert(all.take(i + 1).len() > 0);
                        assert(all.take(i + 1).last() == entry);
                        assert(lookup(all.take(i + 1), k) == (if entry.0@ == k { Some(entry.1) } else { lookup(all.take(i), k) }));
                        assert(lookup(kept@, k) == (if entry.0@ == k { Some(entry.1) } else { lookup(before, k) }));
                        assert(lookup(before, k) == lookup(all.take(i), k));
                    }
                }
            } else {
                proof {
                    assert(entry.0@ == key@);
                    assert forall|k: Seq<char>| k != key@ implies lookup(kept@, k) == lookup(all.take(i + 1), k) by {
                        assert(all.take(i + 1).len() > 0);
                        assert(all.take(i + 1).last().0@ == key@);
                        assert(all.take(i + 1).drop_last() =~= all.take(i));
                        assert(lookup(all.take(i + 1), k) == lookup(all.take(i + 1).drop_last(), k));
                        assert(lookup(kept@, k) == lookup(all.take(i), k));
                    }
                }
            }
            proof {
                i = i + 1;
            }
        }
        proof {
            assert(all.take(i) =~= all);
        }
        self.entries = kept;
    }
}

} // verus!
