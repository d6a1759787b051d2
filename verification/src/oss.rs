//! The S3 client and the key arithmetic that its operations rely on.
use vstd::prelude::*;
use vstd::utf8::encode_utf8;
use crate::keys::{delete_batches, directory_prefix, hex_digit, moved_key, percent_decoded, percent_encoded, without_prefix, DELETE_BATCH_SIZE};
use std::time::Duration;
use aws_sdk_s3::config::{timeout::TimeoutConfig, Credentials, Region, RequestChecksumCalculation, SharedCredentialsProvider};
use crate::models::OssConfig;
use crate::text::{chars_of, has_prefix_at, push_char, push_chars, push_str, string_of, string_of_str, trim_bounds, trim_char, trim_start_char, trim_ws, trimmed};
use crate::keys::{directory_marker, directory_marker_key};

verus! {

#[verifier::external_type_specification]
#[verifier::external_body]
pub struct ExS3Client(aws_sdk_s3::Client);

/// A client for one stored connection, with the settings it was built with.
pub struct Oss {
    pub client: aws_sdk_s3::Client,
    settings: ClientSettings,
}

/// When the client computes checksums of request payloads.
#[derive(Debug, Clone, Copy, PartialEq, Eq, Structural)]
pub enum ChecksumCalculation {
    /// Wherever the operation supports one.
    WhenSupported,
    /// Only where the operation requires one.
    WhenRequired,
}

/// The settings that an S3 client is built with.
#[derive(Debug, Clone)]
pub struct ClientSettings {
    pub region: String,
    pub access_key: String,
    pub secret_key: String,
    /// The name under which the static credentials are reported.
    pub provider_name: &'static str,
    pub endpoint: String,
    /// Whether buckets are addressed in the path rather than in the host name.
    pub force_path_style: bool,
    pub operation_timeout_secs: u64,
    pub connect_timeout_secs: u64,
    pub checksum_calculation: ChecksumCalculation,
}

/// Whether `s` are the client settings for the connection `c`: its region, keys and
/// endpoint, static credentials named `custom`, path-style addressing where
/// `path_style` is `path`, a 30 s operation and a 10 s connect timeout, and
/// checksums only where required.
pub open spec fn settings_for(s: ClientSettings, c: OssConfig) -> bool {
    &&& s.region@ == c.region@
    &&& s.access_key@ == c.access_key@
    &&& s.secret_key@ == c.secret_key@
    &&& s.provider_name@ == "custom"@
    &&& s.endpoint@ == c.endpoint@
    &&& s.force_path_style == (c.path_style@ == "path"@)
    &&& s.operation_timeout_secs == 30
    &&& s.connect_timeout_secs == 10
    &&& s.checksum_calculation == ChecksumCalculation::WhenRequired
}

/// Builds an S3 client (`aws_sdk_s3::Client::from_conf`) with the latest behaviour
/// version and the settings `s`, each handed to the configuration builder as it is,
/// and keeps `s` beside it. Nothing is stated of the client itself: it is opaque.
#[verifier::external_body]
fn s3_client(s: ClientSettings) -> (o: Oss)
    ensures
        o.settings_view() == s,
{
    let credentials = Credentials::new(s.access_key.as_str(), s.secret_key.as_str(), None, None, s.provider_name);
    let timeouts = TimeoutConfig::builder().operation_timeout(Duration::from_secs(s.operation_timeout_secs))
        .connect_timeout(Duration::from_secs(s.connect_timeout_secs)).build();
    let checksums = match s.checksum_calculation {
        ChecksumCalculation::WhenSupported => RequestChecksumCalculation::WhenSupported,
        ChecksumCalculation::WhenRequired => RequestChecksumCalculation::WhenRequired,
    };
    let config = aws_sdk_s3::config::Builder::new().behavior_version_latest().region(Region::new(s.region.clone()))
        .credentials_provider(SharedCredentialsProvider::new(credentials)).endpoint_url(s.endpoint.as_str())
        .timeout_config(timeouts).request_checksum_calculation(checksums).force_path_style(s.force_path_style).build();
    Oss { client: aws_sdk_s3::Client::from_conf(config), settings: s }
}

/// The MIME type (its essence, without parameters) that `mime_guess` guesses for a
/// path from its extension.
pub uninterp spec fn mime_type_guess(path: Seq<char>) -> Seq<char>;

/// `mime_guess::from_path(path).first_or_octet_stream().essence_str()`: the MIME type
/// guessed from the extension, `application/octet-stream` where there is none.
#[verifier::external_body]
fn guess_mime_type(path: &str) -> (mime: String)
    ensures
        mime@ == mime_type_guess(path@),
        !path@.contains('.') ==> mime@ == seq!['a', 'p', 'p', 'l', 'i', 'c', 'a', 't', 'i', 'o', 'n', '/', 'o', 'c', 't', 'e', 't', '-', 's', 't', 'r', 'e', 'a', 'm'],
{
    mime_guess::from_path(path).first_or_octet_stream().essence_str().to_string()
}

/// Why an object-store operation was refused before any request was made.
#[derive(Debug, Clone, PartialEq, Eq)]
pub enum OssError {
    /// The access key or the secret key is empty.
    MissingCredentials,
    /// The endpoint is empty.
    MissingEndpoint,
    /// The directory name is empty once trimmed of `/`.
    EmptyDirectoryName,
    /// The source or the target key is empty once trimmed of leading `/`.
    EmptyCopyKey,
    /// The source and the target key are the same.
    SameCopyKeys,
    /// The source of a copy does not exist.
    SourceNotFound,
}

impl OssError {
    /// The text of the message shown to the user.
    pub open spec fn message_text(&self) -> Seq<char> {
        match self {
            OssError::MissingCredentials => "Access Key 或 Secret Key 不能为空"@,
            OssError::MissingEndpoint => "Endpoint 不能为空"@,
            OssError::EmptyDirectoryName => "文件夹名称不能为空"@,
            OssError::EmptyCopyKey => "源路径和目标路径不能为空"@,
            OssError::SameCopyKeys => "源路径和目标路径不能相同"@,
            OssError::SourceNotFound => "源对象不存在"@,
        }
    }

    /// The message shown to the user.
    pub fn message(&self) -> (m: String)
        ensures
            m@ == self.message_text(),
    {
        match self {
            OssError::MissingCredentials => "Access Key 或 Secret Key 不能为空".to_string(),
            OssError::MissingEndpoint => "Endpoint 不能为空".to_string(),
            OssError::EmptyDirectoryName => "文件夹名称不能为空".to_string(),
            OssError::EmptyCopyKey => "源路径和目标路径不能为空".to_string(),
            OssError::SameCopyKeys => "源路径和目标路径不能相同".to_string(),
            OssError::SourceNotFound => "源对象不存在".to_string(),
        }
    }
}

/// What a key names in a bucket.
#[derive(Debug, Clone, Copy, PartialEq, Eq, Structural)]
pub enum ObjectType {
    Directory,
    Object,
    NotFound,
}

/// One entry of a directory listing.
#[derive(Debug, Clone)]
pub struct FileInfo {
    pub name: String,
    pub is_dir: bool,
    pub size: Option<i64>,
    pub last_modified: Option<String>,
    pub content_type: Option<String>,
}

/// One page of a directory listing, with the token for the next page.
#[derive(Debug, Clone)]
pub struct FileList {
    pub next_token: Option<String>,
    pub objects: Vec<FileInfo>,
}

/// An object as a listing reports it: its key, size and modification time.
#[derive(Debug, Clone)]
pub struct ListedObject {
    pub key: String,
    pub size: Option<i64>,
    pub last_modified: String,
}

/// A bucket of the account.
#[derive(Debug, Clone)]
pub struct BucketInfo {
    pub name: String,
    pub creation_date: Option<String>,
}

/// What the credentials may do in a bucket.
#[derive(Debug, Clone, Copy, PartialEq, Eq, Structural)]
pub struct BucketPermissions {
    pub list: bool,
    pub read: bool,
    pub write: bool,
    pub delete: bool,
}

/// How `delete_object` removes what a key names.
#[derive(Debug, Clone, PartialEq, Eq)]
pub enum DeletePlan {
    /// Every object under this prefix, then the directory marker itself.
    Directory(String),
    /// This one object.
    Object(String),
    /// Both keys, the object and its directory marker, since neither was seen.
    Both(String, String),
}

/// Whether `key` is written as a directory: it ends with `/` and has a name before
/// its slashes.
pub open spec fn names_directory(key: Seq<char>) -> bool {
    key.len() > 0 && key.last() == '/' && directory_prefix(key).len() > 0
}

/// What `key` names, from what was found at and below it (see `classify_object`).
pub open spec fn object_type_of(key: Seq<char>, object_found: bool, marker_listing_nonempty: bool, alternate_listing_nonempty: bool) -> ObjectType {
    if object_found && !names_directory(key) {
        ObjectType::Object
    } else if object_found || marker_listing_nonempty || alternate_listing_nonempty {
        ObjectType::Directory
    } else {
        ObjectType::NotFound
    }
}

/// A key names a directory exactly when it ends with `/` and holds some other
/// character.
pub proof fn lemma_names_directory(key: Seq<char>)
    ensures
        names_directory(key) <==> (key.len() > 0 && key.last() == '/' && exists|i: int| 0 <= i < key.len() && key[i] != '/'),
{
    crate::keys::lemma_trim_char_nonempty(key, '/');
}

/// Classification follows the key's shape: a key found as an object and not ending
/// with `/` names that one object, so deleting it removes only it; a key ending with
/// `/` that holds a name and under which anything was found, its marker object
/// included, names a directory, so deleting, copying or moving it takes everything
/// below it; and a key at which nothing was found, nor below it, names nothing.
pub proof fn lemma_classification(key: Seq<char>, object_found: bool, marker_listing_nonempty: bool, alternate_listing_nonempty: bool)
    ensures
        object_found && !(key.len() > 0 && key.last() == '/') ==> object_type_of(key, object_found, marker_listing_nonempty, alternate_listing_nonempty) == ObjectType::Object,
        (object_found || marker_listing_nonempty || alternate_listing_nonempty) && key.len() > 0 && key.last() == '/'
            && (exists|i: int| 0 <= i < key.len() && key[i] != '/') ==> object_type_of(key, object_found, marker_listing_nonempty, alternate_listing_nonempty) == ObjectType::Directory,
        !object_found && (marker_listing_nonempty || alternate_listing_nonempty) ==> object_type_of(key, object_found, marker_listing_nonempty, alternate_listing_nonempty) == ObjectType::Directory,
        !object_found && !marker_listing_nonempty && !alternate_listing_nonempty ==> object_type_of(key, object_found, marker_listing_nonempty, alternate_listing_nonempty) == ObjectType::NotFound,
{
    lemma_names_directory(key);
}

/// The name of the last component of a path (`Path::file_name` on Unix): the last
/// segment that is neither empty nor `.`, unless that is `..`.
pub open spec fn file_name_of(path: Seq<char>) -> Option<Seq<char>>
    decreases path.len(),
{
    let segs = crate::keys::split_char(path, '/');
    last_named_segment(segs)
}

/// The last segment of `segs` that is neither empty nor `.`, unless it is `..`.
pub open spec fn last_named_segment(segs: Seq<Seq<char>>) -> Option<Seq<char>>
    decreases segs.len(),
{
    if segs.len() == 0 {
        None
    } else if segs.last().len() == 0 || segs.last() == seq!['.'] {
        last_named_segment(segs.drop_last())
    } else if segs.last() == seq!['.', '.'] {
        None
    } else {
        Some(segs.last())
    }
}

impl Oss {
    /// The settings of the client for `oss_config`.
    pub fn client_settings(oss_config: &OssConfig) -> (s: ClientSettings)
        ensures
            settings_for(s, *oss_config),
    {
        ClientSettings {
            region: oss_config.region.clone(),
            access_key: oss_config.access_key.clone(),
            secret_key: oss_config.secret_key.clone(),
            provider_name: "custom",
            endpoint: oss_config.endpoint.clone(),
            force_path_style: Self::uses_path_style(oss_config),
            operation_timeout_secs: 30,
            connect_timeout_secs: 10,
            checksum_calculation: ChecksumCalculation::WhenRequired,
        }
    }

    /// The settings that this client was built with.
    pub closed spec fn settings_view(&self) -> ClientSettings {
        self.settings
    }

    /// The settings that this client was built with.
    pub fn settings(&self) -> (s: &ClientSettings)
        ensures
            *s == self.settings_view(),
    {
        &self.settings
    }

    /// A client for `oss_config`, built with its settings, refused where a key or the
    /// endpoint is empty.
    pub fn new_with_config(oss_config: &OssConfig) -> (r: Result<Oss, OssError>)
        ensures
            (oss_config.access_key@.len() == 0 || oss_config.secret_key@.len() == 0) ==> r == Err::<Oss, OssError>(OssError::MissingCredentials),
            (oss_config.access_key@.len() > 0 && oss_config.secret_key@.len() > 0 && oss_config.endpoint@.len() == 0)
                ==> r == Err::<Oss, OssError>(OssError::MissingEndpoint),
            (oss_config.access_key@.len() > 0 && oss_config.secret_key@.len() > 0 && oss_config.endpoint@.len() > 0)
                ==> r is Ok,
            r matches Ok(oss) ==> settings_for(oss.settings_view(), *oss_config),
    {
        if oss_config.access_key.as_str().is_empty() || oss_config.secret_key.as_str().is_empty() {
            return Err(OssError::MissingCredentials);
        }
        if oss_config.endpoint.as_str().is_empty() {
            return Err(OssError::MissingEndpoint);
        }
        Ok(s3_client(Self::client_settings(oss_config)))
    }

    /// Whether a connection addresses buckets in the path (`path_style` is `path`)
    /// rather than in the host name.
    pub fn uses_path_style(oss_config: &OssConfig) -> (b: bool)
        ensures
            b == (oss_config.path_style@ == "path"@),
    {
        crate::text::same_text(oss_config.path_style.as_str(), "path")
    }

    /// Whether a connection test lists the account's buckets (no default bucket, once
    /// white space is trimmed) rather than one object of its bucket.
    pub fn tests_by_listing_buckets(oss_config: &OssConfig) -> (b: bool)
        ensures
            b == (trim_ws(oss_config.bucket@).len() == 0),
    {
        let t = trimmed(oss_config.bucket.as_str());
        t.as_str().is_empty()
    }

    /// The key of the marker object that creates a directory: the normalised prefix,
    /// refused where it is empty.
    pub fn directory_object_key(directory_path: &str) -> (r: Result<String, OssError>)
        ensures
            directory_prefix(directory_path@).len() == 0 ==> r == Err::<String, OssError>(OssError::EmptyDirectoryName),
            directory_prefix(directory_path@).len() > 0 ==> (r matches Ok(k) && k@ == directory_prefix(directory_path@)),
    {
        let key = Self::normalize_directory_prefix(directory_path);
        if key.as_str().is_empty() {
            Err(OssError::EmptyDirectoryName)
        } else {
            Ok(key)
        }
    }

    /// What a key names, from what was found: a key written as a directory (ending
    /// with `/`, with a name before it) names a directory wherever anything was found
    /// at or below it, its own marker object included, so that deleting, copying or
    /// moving it takes everything below it; any other key names the object found at
    /// it; else a listing under its directory marker, or under the key with `/`
    /// added, shows a directory.
    pub fn classify_object(key: &str, object_found: bool, marker_listing_nonempty: bool, alternate_listing_nonempty: bool) -> (t: ObjectType)
        ensures
            t == object_type_of(key@, object_found, marker_listing_nonempty, alternate_listing_nonempty),
    {
        let cs = chars_of(key);
        let is_directory_key = cs.len() > 0 && cs[cs.len() - 1] == '/' && !Self::normalize_directory_prefix(key).as_str().is_empty();
        if object_found && !is_directory_key {
            ObjectType::Object
        } else if object_found || marker_listing_nonempty || alternate_listing_nonempty {
            ObjectType::Directory
        } else {
            ObjectType::NotFound
        }
    }

    /// The second prefix that classification lists: the key with `/` added.
    pub fn alternate_directory_key(key: &str) -> (k: String)
        ensures
            k@ == key@.push('/'),
    {
        let mut k = string_of_str(key);
        push_char(&mut k, '/');
        k
    }

    /// How `delete_object` removes what `key` names.
    pub fn deletion_plan(object_type: ObjectType, key: &str) -> (plan: DeletePlan)
        ensures
            match object_type {
                ObjectType::Directory => plan matches DeletePlan::Directory(p) && p@ == key@,
                ObjectType::Object => plan matches DeletePlan::Object(k) && k@ == key@,
                ObjectType::NotFound => plan matches DeletePlan::Both(k, m) && k@ == key@ && m@ == directory_marker(key@),
            },
    {
        match object_type {
            ObjectType::Directory => DeletePlan::Directory(string_of_str(key)),
            ObjectType::Object => DeletePlan::Object(string_of_str(key)),
            ObjectType::NotFound => DeletePlan::Both(string_of_str(key), directory_marker_key(key)),
        }
    }

    /// The source and target of a copy or move, each without leading `/`; refused
    /// where either is then empty or they are the same.
    pub fn copy_keys(source_key: &str, target_key: &str) -> (r: Result<(String, String), OssError>)
        ensures
            ({
                let s = trim_start_char(source_key@, '/');
                let t = trim_start_char(target_key@, '/');
                if s.len() == 0 || t.len() == 0 {
                    r == Err::<(String, String), OssError>(OssError::EmptyCopyKey)
                } else if s == t {
                    r == Err::<(String, String), OssError>(OssError::SameCopyKeys)
                } else {
                    r matches Ok((a, b)) && a@ == s && b@ == t
                }
            }),
    {
        let sc = chars_of(source_key);
        let tc = chars_of(target_key);
        let i = crate::text::skip_run(sc.as_slice(), 0, sc.len(), '/');
        let j = crate::text::skip_run(tc.as_slice(), 0, tc.len(), '/');
        proof {
            assert(sc@.subrange(0, sc@.len() as int) =~= sc@);
            assert(tc@.subrange(0, tc@.len() as int) =~= tc@);
        }
        let s = string_of(sc.as_slice(), i, sc.len());
        let t = string_of(tc.as_slice(), j, tc.len());
        if s.as_str().is_empty() || t.as_str().is_empty() {
            return Err(OssError::EmptyCopyKey);
        }
        if crate::text::same_text(s.as_str(), t.as_str()) {
            return Err(OssError::SameCopyKeys);
        }
        Ok((s, t))
    }

    /// The number of keys a listing page asks for: 100 unless given.
    pub fn page_size(max_keys: Option<i32>) -> (n: i32)
        ensures
            n == (match max_keys {
                Some(v) => v,
                None => 100i32,
            }),
    {
        match max_keys {
            Some(v) => v,
            None => 100,
        }
    }

    /// The MIME type recorded for an object stored at `path`.
    pub fn content_type_for(path: &str) -> (mime: String)
        ensures
            mime@ == mime_type_guess(path@),
    {
        guess_mime_type(path)
    }

    /// The listing entry for a common prefix (which ends with `/`): a directory named
    /// by the prefix without that `/` and without the listed prefix.
    pub fn directory_entry(prefix: &str, common_prefix: &str) -> (f: FileInfo)
        requires
            common_prefix@.len() > 0 && common_prefix@.last() == '/',
        ensures
            f.name@ == without_prefix(prefix@, common_prefix@.drop_last()),
            f.is_dir,
            f.size is None,
            f.last_modified is None,
            f.content_type is None,
    {
        let cs = chars_of(common_prefix);
        let stripped = string_of(cs.as_slice(), 0, cs.len() - 1);
        assert(stripped@ =~= common_prefix@.drop_last());
        FileInfo {
            name: Self::remove_prefix(prefix, stripped.as_str()),
            is_dir: true,
            size: None,
            last_modified: None,
            content_type: None,
        }
    }

    /// The listing entry for an object: named by its key without the listed prefix,
    /// with its size, modification time and the MIME type guessed from its key.
    pub fn object_entry(prefix: &str, object: &ListedObject) -> (f: FileInfo)
        ensures
            f.name@ == without_prefix(prefix@, object.key@),
            !f.is_dir,
            f.size == object.size,
            f.last_modified == Some(object.last_modified),
            f.content_type matches Some(m) && m@ == mime_type_guess(object.key@),
    {
        FileInfo {
            name: Self::remove_prefix(prefix, object.key.as_str()),
            is_dir: false,
            size: object.size,
            last_modified: Some(object.last_modified.clone()),
            content_type: Some(guess_mime_type(object.key.as_str())),
        }
    }

    /// One page of a directory listing: the directories (common prefixes) first, then
    /// the objects, each in the order listed.
    pub fn file_list(prefix: &str, next_token: Option<String>, common_prefixes: &[String], objects: &[ListedObject]) -> (l: FileList)
        requires
            forall|i: int| 0 <= i < common_prefixes@.len() ==> (#[trigger] common_prefixes@[i])@.len() > 0
                && common_prefixes@[i]@.last() == '/',
        ensures
            l.next_token == next_token,
            l.objects@.len() == common_prefixes@.len() + objects@.len(),
            forall|i: int| 0 <= i < common_prefixes@.len() ==> {
                &&& (#[trigger] l.objects@[i]).is_dir
                &&& l.objects@[i].name@ == without_prefix(prefix@, common_prefixes@[i]@.drop_last())
                &&& l.objects@[i].size is None
                &&& l.objects@[i].last_modified is None
                &&& l.objects@[i].content_type is None
            },
            forall|i: int| 0 <= i < objects@.len() ==> {
                &&& !(#[trigger] l.objects@[common_prefixes@.len() + i]).is_dir
                &&& l.objects@[common_prefixes@.len() + i].name@ == without_prefix(prefix@, objects@[i].key@)
                &&& l.objects@[common_prefixes@.len() + i].size == objects@[i].size
                &&& l.objects@[common_prefixes@.len() + i].last_modified == Some(objects@[i].last_modified)
                &&& l.objects@[common_prefixes@.len() + i].content_type matches Some(m) && m@ == mime_type_guess(
                    objects@[i].key@,
                )
            },
    {
        let mut entries: Vec<FileInfo> = Vec::new();
        let mut i: usize = 0;
        while i < common_prefixes.len()
            invariant
                i <= common_prefixes@.len(),
                entries@.len() == i,
                forall|k: int| 0 <= k < common_prefixes@.len() ==> (#[trigger] common_prefixes@[k])@.len() > 0
                    && common_prefixes@[k]@.last() == '/',
                forall|k: int| 0 <= k < i ==> {
                    &&& (#[trigger] entries@[k]).is_dir
                    &&& entries@[k].name@ == without_prefix(prefix@, common_prefixes@[k]@.drop_last())
                    &&& entries@[k].size is None
                    &&& entries@[k].last_modified is None
                    &&& entries@[k].content_type is None
                },
            decreases common_prefixes@.len() - i,
        {
            entries.push(Self::directory_entry(prefix, common_prefixes[i].as_str()));
            i = i + 1;
        }
        let mut j: usize = 0;
        while j < objects.len()
            invariant
                j <= objects@.len(),
                entries@.len() == common_prefixes@.len() + j,
                forall|k: int| 0 <= k < common_prefixes@.len() ==> {
                    &&& (#[trigger] entries@[k]).is_dir
                    &&& entries@[k].name@ == without_prefix(prefix@, common_prefixes@[k]@.drop_last())
                    &&& entries@[k].size is None
                    &&& entries@[k].last_modified is None
                    &&& entries@[k].content_type is None
                },
                forall|k: int| 0 <= k < j ==> {
                    &&& !(#[trigger] entries@[common_prefixes@.len() + k]).is_dir
                    &&& entries@[common_prefixes@.len() + k].name@ == without_prefix(prefix@, objects@[k].key@)
                    &&& entries@[common_prefixes@.len() + k].size == objects@[k].size
                    &&& entries@[common_prefixes@.len() + k].last_modified == Some(objects@[k].last_modified)
                    &&& entries@[common_prefixes@.len() + k].content_type matches Some(m) && m@ == mime_type_guess(
                        objects@[k].key@,
                    )
                },
            decreases objects@.len() - j,
        {
            entries.push(Self::object_entry(prefix, &objects[j]));
            j = j + 1;
        }
        FileList { next_token, objects: entries }
    }

    /// The position of the first entry of a listing that is a file, if any: the one
    /// whose readability the permission probe checks.
    pub fn first_file(list: &FileList) -> (r: Option<usize>)
        ensures
            match r {
                Some(i) => i < list.objects@.len() && !list.objects@[i as int].is_dir && forall|k: int|
                    0 <= k < i ==> (#[trigger] list.objects@[k]).is_dir,
                None => forall|k: int| 0 <= k < list.objects@.len() ==> (#[trigger] list.objects@[k]).is_dir,
            },
    {
        let mut i: usize = 0;
        while i < list.objects.len()
            invariant
                i <= list.objects@.len(),
                forall|k: int| 0 <= k < i ==> (#[trigger] list.objects@[k]).is_dir,
            decreases list.objects@.len() - i,
        {
            if !list.objects[i].is_dir {
                return Some(i);
            }
            i = i + 1;
        }
        None
    }

    /// The key of the temporary object that the permission probe writes.
    pub fn probe_object_key(token: &str) -> (key: String)
        ensures
            key@ == seq!['.', 's', '3', '-', 'c', 'l', 'i', 'e', 'n', 't', '-', 'p', 'e', 'r', 'm', 'i', 's', 's', 'i', 'o', 'n', '-', 'p', 'r', 'o', 'b', 'e', '/'] + token@ + seq!['.', 't', 'm', 'p'],
    {
        let mut key = String::new();
        push_str(&mut key, ".s3-client-permission-probe/");
        push_str(&mut key, token);
        push_str(&mut key, ".tmp");
        proof {
            reveal_strlit(".s3-client-permission-probe/");
            reveal_strlit(".tmp");
        }
        key
    }

    /// The permissions that the probes show: listing and deleting as they went;
    /// writing only where deleting went and the probe object was written; reading the
    /// probe object back where writing went, else reading the first listed file.
    pub fn permissions_from_probes(list_ok: bool, delete_ok: bool, write_ok: bool, read_probe_ok: bool, read_existing_ok: bool) -> (p: BucketPermissions)
        ensures
            p.list == list_ok,
            p.delete == delete_ok,
            p.write == (delete_ok && write_ok),
            p.read == (if delete_ok && write_ok { read_probe_ok } else { read_existing_ok }),
    {
        let write = delete_ok && write_ok;
        BucketPermissions {
            list: list_ok,
            read: if write { read_probe_ok } else { read_existing_ok },
            write,
            delete: delete_ok,
        }
    }

    /// Whether an upload goes in parts: where progress is reported and the file is
    /// larger than 5 MiB (the smallest part S3 takes).
    pub fn uploads_in_parts(reports_progress: bool, total_size: u64) -> (b: bool)
        ensures
            b == (reports_progress && total_size > 5 * 1024 * 1024),
    {
        reports_progress && total_size > 5 * 1024 * 1024
    }

    /// The size of each uploaded part but the last: 5 MiB.
    pub const PART_SIZE: usize = 5242880;

    /// An ETag as a completed part records it: without surrounding `"`.
    pub fn part_etag(etag: &str) -> (t: String)
        ensures
            t@ == trim_char(etag@, '"'),
    {
        let cs = chars_of(etag);
        let (a, b) = trim_bounds(cs.as_slice(), '"');
        string_of(cs.as_slice(), a, b)
    }

    /// The size of each ranged download request: 2 MiB.
    pub const DOWNLOAD_CHUNK: u64 = 2097152;

    /// Whether an object of `file_size` bytes is downloaded in one request.
    pub fn downloads_whole(file_size: u64) -> (b: bool)
        ensures
            b == (file_size <= 2097152),
    {
        file_size <= Self::DOWNLOAD_CHUNK
    }

    /// The byte range (inclusive) of the next ranged request once `downloaded` bytes
    /// have arrived: up to one chunk, not past the end.
    pub fn download_range(downloaded: u64, file_size: u64) -> (r: (u64, u64))
        requires
            downloaded < file_size,
            downloaded + 2097152 <= u64::MAX,
        ensures
            r.0 == downloaded,
            r.1 == (if downloaded + 2097152 - 1 < file_size - 1 { downloaded + 2097152 - 1 } else { file_size - 1 }),
    {
        let end = downloaded + Self::DOWNLOAD_CHUNK - 1;
        let last = file_size - 1;
        (downloaded, if end < last { end } else { last })
    }

    /// The `Range` header of a request for bytes `start..=end`: `bytes=start-end`.
    pub fn range_header(start: u64, end: u64) -> (h: String)
        ensures
            h@ == seq!['b', 'y', 't', 'e', 's', '='] + crate::text::decimal(start as nat) + seq!['-'] + crate::text::decimal(end as nat),
    {
        let mut h = String::new();
        push_str(&mut h, "bytes=");
        proof {
            reveal_strlit("bytes=");
        }
        let s = crate::text::decimal_string(start);
        push_str(&mut h, s.as_str());
        push_char(&mut h, '-');
        let e = crate::text::decimal_string(end);
        push_str(&mut h, e.as_str());
        h
    }

    /// Normalises a directory path to the key prefix that its objects share.
    pub fn normalize_directory_prefix(directory_path: &str) -> (prefix: String)
        ensures
            prefix@ == directory_prefix(directory_path@),
    {
        let d = chars_of(directory_path);
        let (a, b) = trim_bounds(d.as_slice(), '/');
        if a == b {
            return String::new();
        }
        let mut prefix = string_of(d.as_slice(), a, b);
        push_char(&mut prefix, '/');
        prefix
    }


    /// The display name of a listed entry: its key without the listed prefix.
    pub fn remove_prefix(prefix: &str, key: &str) -> (name: String)
        ensures
            name@ == without_prefix(prefix@, key@),
    {
        let p = chars_of(prefix);
        let k = chars_of(key);
        proof {
            assert(k@.subrange(0, k@.len() as int) =~= k@);
        }
        if p.len() > 0 && has_prefix_at(k.as_slice(), 0, k.len(), p.as_slice()) {
            string_of(k.as_slice(), p.len(), k.len())
        } else {
            string_of(k.as_slice(), 0, k.len())
        }
    }


    /// Maps a key under `source_prefix` to the same place under `target_prefix`.
    pub fn replace_prefix(key: &str, source_prefix: &str, target_prefix: &str) -> (moved: String)
        ensures
            moved@ == moved_key(key@, source_prefix@, target_prefix@),
    {
        let k = chars_of(key);
        let s = chars_of(source_prefix);
        let t = chars_of(target_prefix);
        let mut moved = string_of(t.as_slice(), 0, t.len());
        proof {
            assert(k@.subrange(0, k@.len() as int) =~= k@);
            assert(t@.subrange(0, t@.len() as int) =~= t@);
        }
        if has_prefix_at(k.as_slice(), 0, k.len(), s.as_slice()) {
            push_chars(&mut moved, k.as_slice(), s.len(), k.len());
            assert(k@.subrange(s@.len() as int, k@.len() as int) =~= k@.skip(s@.len() as int));
        }
        moved
    }


    fn hex_digit_of(n: u8) -> (c: char)
        requires
            n < 16,
        ensures
            c == hex_digit(n),
    {
        if n < 10 {
            (0x30u8 + n) as char
        } else {
            (0x41u8 + n - 10) as char
        }
    }

    /// The `CopySource` of an object: the bucket, `/`, and the UTF-8 bytes of the key
    /// percent-encoded except for unreserved characters and `/`.
    pub fn encode_copy_source(bucket: &str, key: &str) -> (source: String)
        ensures
            source@ == bucket@ + seq!['/'] + percent_encoded(encode_utf8(key@)),
            percent_decoded(source@.skip(bucket@.len() + 1int)) == Some(encode_utf8(key@)),
    {
        let mut source = string_of_str(bucket);
        push_char(&mut source, '/');
        let bytes = key.as_bytes();
        let ghost start = source@;
        let mut i: usize = 0;
        while i < bytes.len()
            invariant
                i <= bytes@.len(),
                bytes@ == encode_utf8(key@),
                source@ == start + percent_encoded(bytes@.take(i as int)),
            decreases bytes@.len() - i,
        {
            let b = bytes[i];
            proof {
                assert(bytes@.take(i + 1).drop_last() =~= bytes@.take(i as int));
            }
            if (0x41 <= b && b <= 0x5a) || (0x61 <= b && b <= 0x7a) || (0x30 <= b && b <= 0x39) || b == 0x2d
                || b == 0x5f || b == 0x2e || b == 0x7e || b == 0x2f {
                push_char(&mut source, b as char);
            } else {
                push_char(&mut source, '%');
                push_char(&mut source, Self::hex_digit_of(b / 16));
                push_char(&mut source, Self::hex_digit_of(b % 16));
            }
            i = i + 1;
        }
        assert(bytes@.take(bytes@.len() as int) =~= bytes@);
        proof {
            crate::keys::lemma_percent_encoding_decodes(bytes@);
            assert(source@.skip(bucket@.len() + 1int) =~= percent_encoded(bytes@));
        }
        source
    }


    /// Splits keys into the batches that one delete request each can carry.
    pub fn chunk_delete_keys(keys: &[String]) -> (chunks: Vec<Vec<String>>)
        ensures
            chunks@.len() == delete_batches(keys@).len(),
            forall|i: int| 0 <= i < chunks@.len() ==> (#[trigger] chunks@[i])@ == delete_batches(keys@)[i],
    {
        let mut chunks: Vec<Vec<String>> = Vec::new();
        let mut start: usize = 0;
        while start < keys.len()
            invariant
                start <= keys@.len(),
                start < keys@.len() ==> start == chunks@.len() * 1000,
                start == keys@.len() ==> chunks@.len() == (keys@.len() + 999) / 1000,
                forall|i: int| 0 <= i < chunks@.len() ==> (#[trigger] chunks@[i])@ == delete_batches(keys@)[i],
            decreases keys@.len() - start,
        {
            let end = if keys.len() - start >= DELETE_BATCH_SIZE { start + DELETE_BATCH_SIZE } else { keys.len() };
            let mut chunk: Vec<String> = Vec::new();
            let mut j = start;
            while j < end
                invariant
                    start <= j <= end <= keys@.len(),
                    chunk@ == keys@.subrange(start as int, j as int),
                decreases end - j,
            {
                chunk.push(keys[j].clone());
                j = j + 1;
                assert(chunk@ =~= keys@.subrange(start as int, j as int));
            }
            let ghost n = chunks@.len();
            chunks.push(chunk);
            proof {
                assert(chunks@[n as int]@ == delete_batches(keys@)[n as int]);
            }
            start = end;
        }
        chunks
    }

}

} // verus!
