use mudflat_knowledge::update::{
    allowed_download_url, download_prefix, download_target, evaluate, is_newer, no_release_info,
    parse_version, pick_asset, rank_asset, release_reply, safe_file_name, Arch, GitHubAsset,
    GitHubRelease, Os, Platform, ReleaseReply, UpdateError, Version,
};

fn asset(name: &str) -> GitHubAsset {
    GitHubAsset {
        name: name.into(),
        browser_download_url: format!("{}v0.2.0/{name}", download_prefix()),
    }
}

fn release(tag: &str, names: &[&str]) -> GitHubRelease {
    GitHubRelease {
        tag_name: tag.into(),
        html_url: format!("https://github.com/nikoart-liu/mudflat-knowledge/releases/tag/{tag}"),
        body: Some("修复同步。".into()),
        draft: false,
        prerelease: false,
        assets: names.iter().copied().map(asset).collect(),
    }
}

const NAMES: &[&str] = &[
    "mudflat-knowledge_0.2.0_darwin_aarch64.app.tar.gz",
    "mudflat-knowledge_0.2.0_darwin_aarch64.dmg",
    "mudflat-knowledge_0.2.0_darwin_x64.app.tar.gz",
    "mudflat-knowledge_0.2.0_darwin_x64.dmg",
    "mudflat-knowledge_0.2.0_linux_amd64.AppImage",
    "mudflat-knowledge_0.2.0_linux_amd64.deb",
    "mudflat-knowledge_0.2.0_linux_x86_64.rpm",
    "mudflat-knowledge_0.2.0_windows_x64-setup.exe",
];

const HERE: Platform = Platform { os: Os::Linux, arch: Arch::X86_64 };

#[test]
fn parse_strips_v_and_prerelease_suffix() {
    assert_eq!(parse_version("v0.2.0"), Some(Version { major: 0, minor: 2, patch: 0 }));
    assert_eq!(parse_version("0.2.0-beta.1"), Some(Version { major: 0, minor: 2, patch: 0 }));
    assert_eq!(parse_version("1.2"), Some(Version { major: 1, minor: 2, patch: 0 }));
    assert_eq!(parse_version(""), None);
    assert_eq!(parse_version("latest"), None);
}

#[test]
fn newer_only_when_latest_outranks_current() {
    assert!(is_newer("v0.2.0", "0.1.0"));
    assert!(is_newer("0.1.1", "0.1.0"));
    assert!(!is_newer("0.1.0", "0.1.0"));
    assert!(!is_newer("v0.1.0", "0.2.0"));
    assert!(!is_newer("not-a-version", "0.1.0"));
}

#[test]
fn macos_arm_prefers_dmg_over_tarball() {
    let rel = release("v0.2.0", NAMES);
    let a = pick_asset(&rel.assets, Platform { os: Os::Macos, arch: Arch::Aarch64 }).unwrap();
    assert_eq!(a.name, "mudflat-knowledge_0.2.0_darwin_aarch64.dmg");
}

#[test]
fn macos_intel_does_not_take_arm_build() {
    let rel = release("v0.2.0", NAMES);
    let a = pick_asset(&rel.assets, Platform { os: Os::Macos, arch: Arch::X86_64 }).unwrap();
    assert_eq!(a.name, "mudflat-knowledge_0.2.0_darwin_x64.dmg");
}

#[test]
fn windows_picks_nsis_setup() {
    let rel = release("v0.2.0", NAMES);
    let a = pick_asset(&rel.assets, Platform { os: Os::Windows, arch: Arch::X86_64 }).unwrap();
    assert_eq!(a.name, "mudflat-knowledge_0.2.0_windows_x64-setup.exe");
}

#[test]
fn linux_prefers_appimage_over_deb() {
    let rel = release("v0.2.0", NAMES);
    let a = pick_asset(&rel.assets, Platform { os: Os::Linux, arch: Arch::X86_64 }).unwrap();
    assert_eq!(a.name, "mudflat-knowledge_0.2.0_linux_amd64.AppImage");
}

#[test]
fn evaluate_marks_update_when_tag_is_newer() {
    let rel = release("v0.2.0", NAMES);
    let info = evaluate("0.1.0", &rel, Some(Platform { os: Os::Macos, arch: Arch::Aarch64 }));
    assert!(info.available);
    assert_eq!(info.latest_version, "0.2.0");
    assert_eq!(info.current_version, "0.1.0");
    assert_eq!(info.asset_name.as_deref(), Some("mudflat-knowledge_0.2.0_darwin_aarch64.dmg"));
    assert!(info.asset_url.unwrap().starts_with(&download_prefix()));
    assert_eq!(info.notes, "修复同步。");
}

#[test]
fn evaluate_ignores_same_version_and_prerelease() {
    let same = evaluate("0.2.0", &release("v0.2.0", NAMES), Some(HERE));
    assert!(!same.available);

    let mut pre = release("v0.3.0", NAMES);
    pre.prerelease = true;
    let info = evaluate("0.2.0", &pre, Some(HERE));
    assert!(!info.available);
    assert_eq!(info.latest_version, "0.2.0");
}

#[test]
fn evaluate_keeps_update_even_without_this_platform_asset() {
    let rel = release("v0.2.0", &["notes.txt"]);
    let info = evaluate("0.1.0", &rel, Some(Platform { os: Os::Macos, arch: Arch::Aarch64 }));
    assert!(info.available);
    assert!(info.asset_url.is_none());
}

#[test]
fn download_url_must_be_this_repo_release() {
    assert!(allowed_download_url(
        "https://github.com/nikoart-liu/mudflat-knowledge/releases/download/v0.2.0/a.dmg"
    ));
    assert!(!allowed_download_url("https://evil.example/a.dmg"));
    assert!(!allowed_download_url("https://github.com/other/repo/releases/download/v1/a.dmg"));
}

// ---- further cases ----

#[test]
fn parse_version_edge_cases() {
    assert_eq!(parse_version("  V3.4.5+build  "), Some(Version { major: 3, minor: 4, patch: 5 }));
    assert_eq!(parse_version("7"), Some(Version { major: 7, minor: 0, patch: 0 }));
    assert_eq!(parse_version("1.2.3.4"), None);
    assert_eq!(parse_version("1..2"), None);
    assert_eq!(parse_version("1.2."), None);
    assert_eq!(parse_version("18446744073709551616"), None);
    assert_eq!(
        parse_version("18446744073709551615.0.1"),
        Some(Version { major: u64::MAX, minor: 0, patch: 1 })
    );
    assert_eq!(parse_version("+1.+2"), None);
    assert_eq!(parse_version("1.+2"), None);
    assert_eq!(parse_version("1.2+3"), Some(Version { major: 1, minor: 2, patch: 0 }));
}

#[test]
fn newer_is_not_symmetric() {
    assert!(is_newer("1.10.0", "1.9.9"));
    assert!(!is_newer("1.9.9", "1.10.0"));
    assert!(is_newer("2", "1.99.99"));
}

#[test]
fn rank_rejects_foreign_and_arm_windows() {
    let win = Platform { os: Os::Windows, arch: Arch::X86_64 };
    assert_eq!(rank_asset("app_windows_arm64-setup.exe", win), None);
    assert_eq!(rank_asset("APP_WINDOWS_X64.EXE", win), Some(1));
    let arm_linux = Platform { os: Os::Linux, arch: Arch::Aarch64 };
    assert_eq!(rank_asset("app_linux_aarch64.AppImage", arm_linux), None);
    let linux = Platform { os: Os::Linux, arch: Arch::X86_64 };
    assert_eq!(rank_asset("app_linux_x86_64.rpm", linux), Some(2));
}

#[test]
fn pick_keeps_first_of_equal_rank() {
    let assets = vec![asset("b_linux_amd64.deb"), asset("a_linux_amd64.deb")];
    let a = pick_asset(&assets, HERE).unwrap();
    assert_eq!(a.name, "b_linux_amd64.deb");
    assert!(pick_asset(&[asset("notes.txt")], HERE).is_none());
}

#[test]
fn evaluate_falls_back_to_release_page_and_draft_is_never_offered() {
    let mut rel = release("v9.0.0", NAMES);
    rel.html_url = String::new();
    rel.draft = true;
    let info = evaluate("v0.1.0", &rel, None);
    assert!(!info.available);
    assert_eq!(info.current_version, "v0.1.0");
    assert_eq!(info.html_url, "https://github.com/nikoart-liu/mudflat-knowledge/releases/latest");
    assert_eq!(info.notes, "");
}

#[test]
fn missing_release_keeps_current() {
    let info = no_release_info("v1.2.3");
    assert_eq!(info.latest_version, "1.2.3");
    assert!(!info.available);
}

#[test]
fn release_reply_classifies_status() {
    assert!(matches!(release_reply(404, ""), Ok(ReleaseReply::Missing)));
    assert!(matches!(release_reply(200, "{}"), Ok(ReleaseReply::Present)));
    assert!(matches!(release_reply(429, ""), Err(UpdateError::RateLimited)));
    match release_reply(500, "boom") {
        Err(e) => assert_eq!(e.message(), "GitHub 返回 500: boom"),
        Ok(_) => panic!("500 must fail"),
    }
    assert_eq!(UpdateError::Network("x".into()).message(), "网络错误: x");
}

#[test]
fn download_target_checks_offer_asset_and_origin() {
    let rel = release("v0.2.0", NAMES);
    let info = evaluate("0.1.0", &rel, Some(HERE));
    let (name, url) = download_target(&info).unwrap();
    assert_eq!(name, "mudflat-knowledge_0.2.0_linux_amd64.AppImage");
    assert!(url.starts_with(&download_prefix()));

    let mut foreign = info.clone();
    foreign.asset_url = Some("https://evil.example/a.dmg".into());
    match download_target(&foreign) {
        Err(e) => assert_eq!(e.message(), "安装包地址不是本仓库的 GitHub Release"),
        Ok(_) => panic!("foreign url must be refused"),
    }
    let current = evaluate("0.2.0", &rel, Some(HERE));
    match download_target(&current) {
        Err(e) => assert_eq!(e.message(), "已经是最新版本"),
        Ok(_) => panic!("no update"),
    }
}

#[test]
fn safe_file_name_replaces_unsafe_chars() {
    assert_eq!(safe_file_name("a b/c.dmg"), "a_b_c.dmg");
    assert_eq!(safe_file_name("安装.exe"), "__.exe");
    assert_eq!(safe_file_name(""), "mudflat-update.bin");
}
