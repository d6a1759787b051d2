//! Deciding on application updates from the published releases.
use vstd::prelude::*;
use crate::config::ReleaseVersionRecord;
use crate::text::{chars_of, same_text, skip_run, string_of, trim_start_char, trim_ws, trim_ws_bounds};

verus! {

/// Whether `text` is a version that `semver::Version::parse` accepts.
pub uninterp spec fn semver_valid(text: Seq<char>) -> bool;

/// Whether the version `latest` is greater than `current` in the order of
/// `semver::Version`.
pub uninterp spec fn semver_greater(latest: Seq<char>, current: Seq<char>) -> bool;

/// Parses both texts with `semver::Version::parse` and compares them with `>` (the
/// derived order of `Version`): `None` where either does not parse. A version is
/// not greater than itself.
#[verifier::external_body]
fn semver_compare(latest: &str, current: &str) -> (r: Option<bool>)
    ensures
        r == (if semver_valid(latest@) && semver_valid(current@) {
            Some(semver_greater(latest@, current@))
        } else {
            None::<bool>
        }),
        latest@ == current@ ==> r != Some(true),
{
    match (semver::Version::parse(latest), semver::Version::parse(current)) {
        (Ok(latest), Ok(current)) => Some(latest > current),
        _ => None,
    }
}

/// A version tag without surrounding white space and without the leading `v`s and
/// then `V`s.
pub open spec fn version_text(tag: Seq<char>) -> Seq<char> {
    trim_start_char(trim_start_char(trim_ws(tag), 'v'), 'V')
}

/// The version number that a release tag stands for.
pub fn normalize_version(version: &str) -> (v: String)
    ensures
        v@ == version_text(version@),
{
    let cs = chars_of(version);
    let (a, b) = trim_ws_bounds(cs.as_slice());
    let i = skip_run(cs.as_slice(), a, b, 'v');
    let j = skip_run(cs.as_slice(), i, b, 'V');
    string_of(cs.as_slice(), j, b)
}

/// Whether `latest` is a newer version than `current`: by semantic versioning where
/// both normalised versions parse, else whenever they differ.
pub open spec fn newer_version(latest: Seq<char>, current: Seq<char>) -> bool {
    let l = version_text(latest);
    let c = version_text(current);
    if semver_valid(l) && semver_valid(c) {
        semver_greater(l, c)
    } else {
        l != c
    }
}

/// Whether the release `latest` is newer than the running version `current`. A
/// version is never newer than itself.
pub fn is_newer_version(latest: &str, current: &str) -> (newer: bool)
    ensures
        newer == newer_version(latest@, current@),
        version_text(latest@) == version_text(current@) ==> !newer,
{
    let l = normalize_version(latest);
    let c = normalize_version(current);
    match semver_compare(l.as_str(), c.as_str()) {
        Some(greater) => greater,
        None => !same_text(l.as_str(), c.as_str()),
    }
}

/// A release as the releases listing describes it.
#[derive(Debug, Clone)]
pub struct GitHubRelease {
    pub tag_name: String,
    pub name: Option<String>,
    pub html_url: Option<String>,
    pub body: Option<String>,
    pub published_at: Option<String>,
    pub draft: bool,
    pub prerelease: bool,
}

/// Whether a release is a published, final release.
pub open spec fn is_stable(r: GitHubRelease) -> bool {
    !r.draft && !r.prerelease
}

/// Why no update can be offered.
#[derive(Debug, Clone, PartialEq, Eq)]
pub enum UpdateError {
    /// The listing holds no published, final release.
    NoStableRelease,
}

impl UpdateError {
    /// The text of the message shown to the user.
    pub open spec fn message_text(&self) -> Seq<char> {
        match self {
            UpdateError::NoStableRelease => "没有找到可用于更新的正式 Release"@,
        }
    }

    /// The message shown to the user.
    pub fn message(&self) -> (m: String)
        ensures
            m@ == self.message_text(),
    {
        match self {
            UpdateError::NoStableRelease => "没有找到可用于更新的正式 Release".to_string(),
        }
    }
}

/// The position of the first published, final release in the listing (the newest,
/// as the listing is newest first).
pub fn latest_stable_release(releases: &[GitHubRelease]) -> (r: Result<usize, UpdateError>)
    ensures
        match r {
            Ok(i) => i < releases@.len() && is_stable(releases@[i as int]) && forall|k: int|
                0 <= k < i ==> !is_stable(#[trigger] releases@[k]),
            Err(_) => forall|k: int| 0 <= k < releases@.len() ==> !is_stable(#[trigger] releases@[k]),
        },
{
    let mut i: usize = 0;
    while i < releases.len()
        invariant
            i <= releases@.len(),
            forall|k: int| 0 <= k < i ==> !is_stable(#[trigger] releases@[k]),
        decreases releases@.len() - i,
    {
        if !releases[i].draft && !releases[i].prerelease {
            return Ok(i);
        }
        i = i + 1;
    }
    Err(UpdateError::NoStableRelease)
}

/// The record kept of a release.
pub open spec fn release_record(r: GitHubRelease, rec: ReleaseVersionRecord) -> bool {
    &&& rec.version@ == version_text(r.tag_name@)
    &&& rec.tag_name == r.tag_name
    &&& rec.name == r.name
    &&& rec.release_url == r.html_url
    &&& rec.body == r.body
    &&& rec.published_at == r.published_at
}

/// The published, final releases of the listing, in order.
pub open spec fn stable_releases(releases: Seq<GitHubRelease>) -> Seq<GitHubRelease>
    decreases releases.len(),
{
    if releases.len() == 0 {
        releases
    } else if is_stable(releases.last()) {
        stable_releases(releases.drop_last()).push(releases.last())
    } else {
        stable_releases(releases.drop_last())
    }
}

fn copy_text(t: &Option<String>) -> (c: Option<String>)
    ensures
        c == *t,
{
    match t {
        Some(s) => Some(s.clone()),
        None => None,
    }
}

/// The records to keep of a listing: one for each published, final release, in order.
pub fn release_records(releases: &[GitHubRelease]) -> (records: Vec<ReleaseVersionRecord>)
    ensures
        records@.len() == stable_releases(releases@).len(),
        forall|k: int| 0 <= k < records@.len() ==> release_record(stable_releases(releases@)[k], #[trigger] records@[k]),
{
    let mut records: Vec<ReleaseVersionRecord> = Vec::new();
    let mut i: usize = 0;
    while i < releases.len()
        invariant
            i <= releases@.len(),
            records@.len() == stable_releases(releases@.take(i as int)).len(),
            forall|k: int| 0 <= k < records@.len() ==> release_record(
                stable_releases(releases@.take(i as int))[k],
                #[trigger] records@[k],
            ),
        decreases releases@.len() - i,
    {
        proof {
            assert(releases@.take(i + 1).drop_last() =~= releases@.take(i as int));
        }
        let r = &releases[i];
        if !r.draft && !r.prerelease {
            records.push(ReleaseVersionRecord {
                version: normalize_version(r.tag_name.as_str()),
                tag_name: r.tag_name.clone(),
                name: copy_text(&r.name),
                release_url: copy_text(&r.html_url),
                body: copy_text(&r.body),
                published_at: copy_text(&r.published_at),
            });
        }
        i = i + 1;
    }
    assert(releases@.take(releases@.len() as int) =~= releases@);
    records
}

/// What an update check reports.
#[derive(Debug, Clone)]
pub struct AppUpdateCheckResult {
    pub current_version: String,
    pub latest_version: String,
    pub latest_tag: String,
    pub release_name: Option<String>,
    pub release_url: Option<String>,
    pub published_at: Option<String>,
    pub update_available: bool,
    pub skipped: bool,
    pub should_prompt: bool,
}

impl AppUpdateCheckResult {
    /// The report on `release` for the running version `current_version`, where
    /// `skipped` says whether the user skipped that release's version: an update is
    /// available when the release is newer, and the user is asked when it is and the
    /// check was asked for or the version was not skipped.
    pub fn new(current_version: String, release: &GitHubRelease, skipped: bool, interactive: bool) -> (r: Self)
        ensures
            r.current_version == current_version,
            r.latest_version@ == version_text(release.tag_name@),
            r.latest_tag == release.tag_name,
            r.release_name == release.name,
            r.release_url == release.html_url,
            r.published_at == release.published_at,
            r.update_available == newer_version(version_text(release.tag_name@), current_version@),
            r.skipped == skipped,
            r.should_prompt == (r.update_available && (interactive || !skipped)),
    {
        let latest_version = normalize_version(release.tag_name.as_str());
        let update_available = is_newer_version(latest_version.as_str(), current_version.as_str());
        AppUpdateCheckResult {
            current_version,
            latest_version,
            latest_tag: release.tag_name.clone(),
            release_name: copy_text(&release.name),
            release_url: copy_text(&release.html_url),
            published_at: copy_text(&release.published_at),
            update_available,
            skipped,
            should_prompt: update_available && (interactive || !skipped),
        }
    }
}

} // verus!
