use adb_on::i18n::{I18n, Notice};
use adb_on::platform::Platform;
use adb_on::setup::{
    archive_intact, archive_member, archive_members, candidates, data_dir, data_dir_from, describe_source, digest_matches, display_form,
    download_platform, download_source, executable, prunable, settings_payload, SOURCE_OWN, SOURCE_PATH, SOURCE_SDK,
    SOURCE_SELECTED,
};

fn s(x: &str) -> String {
    x.to_string()
}

#[test]
fn executable_name_follows_the_platform() {
    assert_eq!(executable(Platform::Windows), "adb.exe");
    assert_eq!(executable(Platform::MacOs), "adb");
    assert_eq!(executable(Platform::Linux), "adb");
}

#[test]
fn candidates_come_in_search_order_and_skip_relative_path_entries() {
    let all = candidates(
        Some(s("/chosen/adb")),
        vec![s("/sdk-a/platform-tools/adb"), s("/sdk-b/platform-tools/adb")],
        Some(s("/home/u/Android/Sdk/platform-tools/adb")),
        vec![(s("/usr/bin/adb"), true), (s("adb"), false), (s("/opt/bin/adb"), true)],
        Some(s("/data/platform-tools/adb")),
        false,
    );
    assert_eq!(
        all,
        vec![
            s("/chosen/adb"),
            s("/sdk-a/platform-tools/adb"),
            s("/sdk-b/platform-tools/adb"),
            s("/home/u/Android/Sdk/platform-tools/adb"),
            s("/usr/bin/adb"),
            s("/opt/bin/adb"),
            s("/data/platform-tools/adb"),
        ]
    );
    let own_only = candidates(
        None,
        vec![s("/sdk-a/platform-tools/adb")],
        None,
        vec![(s("/usr/bin/adb"), true)],
        Some(s("/data/platform-tools/adb")),
        true,
    );
    assert_eq!(own_only, vec![s("/data/platform-tools/adb")]);
    assert!(candidates(None, vec![], None, vec![], None, false).is_empty());
}

#[test]
fn data_dir_switch_wins_when_not_empty() {
    assert_eq!(data_dir(Some(b"/tmp/adb-on-test".to_vec())), Ok(b"/tmp/adb-on-test".to_vec()));
    let fallback = data_dir(Some(Vec::new()));
    assert!(fallback.is_ok() || fallback == Err(Notice::NoDataDir));
}

#[test]
fn only_the_apps_own_parent_folders_are_pruned() {
    assert!(prunable(Some("adb-on")));
    assert!(prunable(Some("tinygem")));
    assert!(!prunable(Some("other")));
    assert!(!prunable(Some("adb-on2")));
    assert!(!prunable(None));
}

#[test]
fn shown_paths_drop_the_verbatim_prefix() {
    assert_eq!(display_form(r"\\?\C:\Users\u\adb.exe"), r"C:\Users\u\adb.exe");
    assert_eq!(display_form("/opt/sdk/adb"), "/opt/sdk/adb");
    assert_eq!(display_form(r"\\?"), r"\\?");
}

#[test]
fn settings_bytes_lose_a_byte_order_mark_and_oversized_files_are_ignored() {
    let with_bom = [0xef, 0xbb, 0xbf, b'{', b'}'];
    assert_eq!(settings_payload(5, &with_bom), Some(b"{}".to_vec()));
    assert_eq!(settings_payload(2, b"{}"), Some(b"{}".to_vec()));
    assert_eq!(settings_payload(16384, b"{}"), Some(b"{}".to_vec()));
    assert_eq!(settings_payload(16385, b"{}"), None);
    assert_eq!(settings_payload(2, &[0xef, 0xbb]), Some(vec![0xef, 0xbb]));
}

#[test]
fn downloads_need_consent_and_a_supported_platform() {
    assert_eq!(download_platform(true, Platform::Windows), Ok("windows"));
    assert_eq!(download_platform(true, Platform::MacOs), Ok("macos"));
    assert_eq!(download_platform(true, Platform::Linux), Err(Notice::PlatformUnsupported));
    assert_eq!(download_platform(false, Platform::Windows), Err(Notice::TermsRequired));
    assert_eq!(
        archive_members(Platform::Windows),
        vec!["adb.exe", "AdbWinApi.dll", "AdbWinUsbApi.dll", "NOTICE.txt", "source.properties"]
    );
    assert_eq!(archive_members(Platform::MacOs), vec!["adb", "NOTICE.txt", "source.properties"]);
}

#[test]
fn archive_integrity_compares_the_sha256_in_small_hex() {
    let abc = "ba7816bf8f01cfea414140de5dae2223b00361a396177a9cb410ff61f20015ad";
    assert!(archive_intact(b"abc", abc));
    assert!(!archive_intact(b"abd", abc));
    assert!(!archive_intact(b"abc", &abc.to_uppercase()));
    let empty = "e3b0c44298fc1c149afbf4c8996fb92427ae41e4649b934ca495991b7852b855";
    assert!(archive_intact(b"", empty));
    assert!(digest_matches(&[0x00, 0x0f, 0xa0, 0xff], "000fa0ff"));
    assert!(!digest_matches(&[0x00, 0x0f], "000f00"));
}

#[test]
fn tool_source_is_named_in_order_of_precedence() {
    let i18n = I18n::new(Vec::new());
    assert_eq!(describe_source(true, true, true, &i18n), (1, s(SOURCE_OWN)));
    assert_eq!(describe_source(false, true, true, &i18n), (2, s(SOURCE_SELECTED)));
    assert_eq!(describe_source(false, false, true, &i18n), (3, s(SOURCE_SDK)));
    assert_eq!(describe_source(false, false, false, &i18n), (4, s(SOURCE_PATH)));
}

fn archive(files: &[(&str, &[u8])]) -> Vec<u8> {
    let mut writer = zip::ZipWriter::new(std::io::Cursor::new(Vec::new()));
    let options = zip::write::SimpleFileOptions::default().compression_method(zip::CompressionMethod::Deflated);
    for (name, data) in files {
        writer.start_file(*name, options).unwrap();
        std::io::Write::write_all(&mut writer, data).unwrap();
    }
    writer.finish().unwrap().into_inner()
}

#[test]
fn archive_members_are_taken_from_under_platform_tools() {
    let bytes = archive(&[
        ("platform-tools/adb", b"\x7fELF tool"),
        ("platform-tools/NOTICE.txt", b"notice"),
        ("adb", b"wrong place"),
    ]);
    assert_eq!(archive_member(&bytes, "adb"), Ok(b"\x7fELF tool".to_vec()));
    assert_eq!(archive_member(&bytes, "NOTICE.txt"), Ok(b"notice".to_vec()));
    assert_eq!(archive_member(&bytes, "source.properties"), Err(Notice::MemberMissing));
    assert_eq!(archive_member(b"not an archive", "adb"), Err(Notice::ArchiveUnreadable));
    assert_eq!(archive_member(&[], "adb"), Err(Notice::ArchiveUnreadable));
}

#[test]
fn data_dir_from_prefers_the_switch_then_the_found_folder() {
    let b = |x: &str| x.as_bytes().to_vec();
    assert_eq!(data_dir_from(Some(b("/x")), Some(b("/y"))), Ok(b("/x")));
    assert_eq!(data_dir_from(Some(Vec::new()), Some(b("/y"))), Ok(b("/y")));
    assert_eq!(data_dir_from(None, Some(b("/y"))), Ok(b("/y")));
    assert_eq!(data_dir_from(None, None), Err(Notice::NoDataDir));
}

#[test]
fn the_download_source_comes_from_the_manifest_entry() {
    let manifest = r#"{"windows": {"url": "https://dl.example/w.zip", "sha256": "ab12"},
        "macos": {"url": "https://dl.example/m.zip"}}"#;
    assert_eq!(
        download_source(true, Platform::Windows, manifest),
        Ok((s("https://dl.example/w.zip"), s("ab12")))
    );
    assert_eq!(download_source(true, Platform::MacOs, manifest), Err(Notice::DownloadHash));
    assert_eq!(download_source(true, Platform::Windows, r#"{"macos": {}}"#), Err(Notice::DownloadUrl));
    assert_eq!(download_source(true, Platform::Windows, r#"{"windows": {"url": 3}}"#), Err(Notice::DownloadUrl));
    assert_eq!(download_source(true, Platform::Windows, "not json"), Err(Notice::DownloadInfo));
    assert_eq!(download_source(true, Platform::Windows, ""), Err(Notice::DownloadInfo));
    assert_eq!(download_source(false, Platform::Windows, manifest), Err(Notice::TermsRequired));
    assert_eq!(download_source(true, Platform::Linux, manifest), Err(Notice::PlatformUnsupported));
}

#[test]
fn the_data_folder_is_looked_up_under_the_app_names() {
    assert_eq!(adb_on::setup::app_folder_names(), ("ai", "tinygem", "adb-on"));
}
