use s3_client::update::{
    is_newer_version, latest_stable_release, normalize_version, release_records, AppUpdateCheckResult,
    GitHubRelease, UpdateError,
};

fn release(tag: &str, draft: bool, prerelease: bool) -> GitHubRelease {
    GitHubRelease {
        tag_name: tag.to_string(),
        name: Some(format!("Release {}", tag)),
        html_url: None,
        body: None,
        published_at: Some("2024-01-01T00:00:00Z".to_string()),
        draft,
        prerelease,
    }
}

#[test]
fn normalizes_version_tags() {
    assert_eq!(normalize_version(" v1.2.3 "), "1.2.3");
    assert_eq!(normalize_version("V2.0.0"), "2.0.0");
    assert_eq!(normalize_version("vV1.0.0"), "1.0.0");
    assert_eq!(normalize_version("Vv1.0.0"), "v1.0.0");
    assert_eq!(normalize_version("1.0.0"), "1.0.0");
}

#[test]
fn compares_semantic_versions() {
    assert!(is_newer_version("v1.2.0", "1.1.9"));
    assert!(!is_newer_version("v1.1.9", "1.2.0"));
    assert!(!is_newer_version("1.2.0", "v1.2.0"));
    assert!(is_newer_version("1.10.0", "1.9.0"));
    assert!(!is_newer_version("1.0.0-beta", "1.0.0"));
}

#[test]
fn non_semantic_versions_differ_when_text_differs() {
    assert!(is_newer_version("nightly", "1.0.0"));
    assert!(!is_newer_version("nightly", "vnightly"));
}

#[test]
fn picks_first_stable_release() {
    let releases = vec![release("v3.0.0", true, false), release("v2.1.0", false, true), release("v2.0.0", false, false)];
    assert_eq!(latest_stable_release(&releases), Ok(2));
    let none = vec![release("v3.0.0", true, false)];
    assert_eq!(latest_stable_release(&none), Err(UpdateError::NoStableRelease));
    assert_eq!(UpdateError::NoStableRelease.message(), "没有找到可用于更新的正式 Release");
}

#[test]
fn records_only_stable_releases() {
    let releases = vec![release("v3.0.0", false, false), release("v2.1.0", false, true), release("V2.0.0", false, false)];
    let records = release_records(&releases);
    assert_eq!(records.len(), 2);
    assert_eq!(records[0].version, "3.0.0");
    assert_eq!(records[1].version, "2.0.0");
    assert_eq!(records[1].tag_name, "V2.0.0");
    assert_eq!(records[0].name.as_deref(), Some("Release v3.0.0"));
}

#[test]
fn skipped_version_prompts_only_when_asked() {
    let r = release("v2.0.0", false, false);
    let automatic = AppUpdateCheckResult::new("1.0.0".to_string(), &r, true, false);
    assert!(automatic.update_available);
    assert!(!automatic.should_prompt);
    let asked = AppUpdateCheckResult::new("1.0.0".to_string(), &r, true, true);
    assert!(asked.should_prompt);
    let fresh = AppUpdateCheckResult::new("1.0.0".to_string(), &r, false, false);
    assert!(fresh.should_prompt);
    assert_eq!(fresh.latest_version, "2.0.0");
    assert_eq!(fresh.latest_tag, "v2.0.0");
}

#[test]
fn current_version_is_not_an_update() {
    let r = release("v1.0.0", false, false);
    let result = AppUpdateCheckResult::new("1.0.0".to_string(), &r, false, true);
    assert!(!result.update_available);
    assert!(!result.should_prompt);
}

#[test]
fn surrounding_white_space_does_not_make_a_version_newer() {
    assert!(!is_newer_version("1.0.0", " 1.0.0"));
    assert!(!is_newer_version("v1.0.0\u{3000}", "1.0.0"));
    assert_eq!(normalize_version("\u{2003}v2.1.0\n"), "2.1.0");
}
