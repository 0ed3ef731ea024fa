use adb_on::i18n::{
    bundled_language, current, detect, font_family, index, languages, message, t, tf, Entry, I18n, Notice,
};
use adb_on::platform::Platform;

fn table() -> Vec<Entry> {
    vec![Entry {
        key: "ADB 서버 응답 오류".to_string(),
        texts: vec![
            ("en".to_string(), "ADB server reply error".to_string()),
            ("de".to_string(), "Fehler in der Antwort des ADB-Servers".to_string()),
        ],
    }, Entry {
        key: "{} 파일을 선택해 주세요.".to_string(),
        texts: vec![("en".to_string(), "Please select the {} file.".to_string())],
    }]
}

#[test]
fn detect_maps_locale_tags_and_falls_back_to_english() {
    assert_eq!(detect(Some("ko-KR")), "ko");
    assert_eq!(detect(Some("zh_CN")), "zh-Hans");
    assert_eq!(detect(Some("zh-TW")), "zh-Hans");
    assert_eq!(detect(Some("pt-BR")), "en");
    assert_eq!(detect(None), "en");
}

#[test]
fn tf_fills_placeholders_in_order_and_keeps_extra_args() {
    let state = I18n::new(Vec::new());
    assert_eq!(tf(&state, "{} 파일을 선택해 주세요.", &["adb.exe"]), "adb.exe 파일을 선택해 주세요.");
    assert_eq!(tf(&state, "지울 데이터가 없어요.\n{}", &["C:\\x", "extra"]), "지울 데이터가 없어요.\nC:\\x extra");
}

#[test]
fn detect_handles_case_and_other_supported_languages() {
    assert_eq!(detect(Some("JA_jp")), "ja");
    assert_eq!(detect(Some("es")), "es");
    assert_eq!(detect(Some("de-AT")), "de");
    assert_eq!(detect(Some("fr_CA")), "fr");
    assert_eq!(detect(Some("")), "en");
    assert_eq!(detect(Some("kor")), "en");
}

#[test]
fn setting_a_language_changes_what_t_returns() {
    let mut state = I18n::new(table());
    assert_eq!(current(&state), "ko");
    assert_eq!(index(&state), 4);
    assert_eq!(t(&state, "ADB 서버 응답 오류"), "ADB 서버 응답 오류");
    assert!(adb_on::i18n::set(&mut state, "de"));
    assert_eq!(current(&state), "de");
    assert_eq!(index(&state), 5);
    assert_eq!(t(&state, "ADB 서버 응답 오류"), "Fehler in der Antwort des ADB-Servers");
    assert!(!adb_on::i18n::set(&mut state, "pt"));
    assert_eq!(current(&state), "de");
    assert!(adb_on::i18n::set(&mut state, "ja"));
    assert_eq!(t(&state, "ADB 서버 응답 오류"), "ADB 서버 응답 오류");
    assert_eq!(t(&state, "없는 문장"), "없는 문장");
    assert!(adb_on::i18n::set(&mut state, "ko"));
    assert_eq!(t(&state, "ADB 서버 응답 오류"), "ADB 서버 응답 오류");
}

#[test]
fn notices_read_in_the_current_language() {
    let mut state = I18n::new(table());
    assert_eq!(message(&state, &Notice::ServerReply), "ADB 서버 응답 오류");
    assert_eq!(message(&state, &Notice::SelectFile("adb.exe".to_string())), "adb.exe 파일을 선택해 주세요.");
    assert!(adb_on::i18n::set(&mut state, "en"));
    assert_eq!(message(&state, &Notice::ServerReply), "ADB server reply error");
    assert_eq!(message(&state, &Notice::SelectFile("adb".to_string())), "Please select the adb file.");
    let korean = I18n::new(Vec::new());
    let all = [
        Notice::AddressFormat,
        Notice::AddressRange,
        Notice::PairingCode,
        Notice::ServerRequestFailed,
        Notice::ServerSilent,
        Notice::ServerUnsupported,
        Notice::ServerUnreachable,
        Notice::ServerReply,
        Notice::ServerVersion,
        Notice::AdbMissing,
        Notice::NotAdb,
        Notice::VersionMismatch,
        Notice::NotPaired,
        Notice::NotConnected,
        Notice::NotListedWireless,
        Notice::TrackFailed,
        Notice::ServerClosed,
        Notice::TrackOverflow,
        Notice::TrackReply,
        Notice::NoAdb,
        Notice::DownloadIntegrity,
        Notice::TermsRequired,
        Notice::PlatformUnsupported,
        Notice::NoDataDir,
        Notice::ArchiveUnreadable,
        Notice::MemberMissing,
        Notice::MemberTooLarge,
        Notice::MemberUnreadable,
        Notice::DownloadInfo,
        Notice::DownloadUrl,
        Notice::DownloadHash,
    ];
    let texts: Vec<String> = all.iter().map(|n| message(&korean, n)).collect();
    for (i, a) in texts.iter().enumerate() {
        assert!(!a.is_empty());
        for b in &texts[i + 1..] {
            assert_ne!(a, b);
        }
    }
    assert_eq!(message(&korean, &Notice::NoAdb), "먼저 ADB를 준비해 주세요.");
}

#[test]
fn language_list_fonts_and_bundles() {
    let list = languages();
    assert_eq!(list.len(), 7);
    assert_eq!(list[0], ("en", "English"));
    assert_eq!(list[4], ("ko", "한국어"));
    assert_eq!(list[6], ("fr", "Français"));
    assert_eq!(font_family(Platform::Windows, "ko"), "Malgun Gothic");
    assert_eq!(font_family(Platform::Windows, "en"), "Segoe UI");
    assert_eq!(font_family(Platform::MacOs, "zh-Hans"), "PingFang SC");
    assert_eq!(font_family(Platform::MacOs, "de"), "");
    assert_eq!(font_family(Platform::Linux, "ja"), "");
    assert_eq!(bundled_language("ko"), "");
    assert_eq!(bundled_language("de"), "de");
}

#[test]
fn values_are_kept_when_a_translation_lost_its_place() {
    let mut state = I18n::new(vec![Entry {
        key: "{} 파일을 선택해 주세요.".to_string(),
        texts: vec![("fr".to_string(), "Choisissez le fichier.".to_string())],
    }]);
    assert!(adb_on::i18n::set(&mut state, "fr"));
    assert_eq!(tf(&state, "{} 파일을 선택해 주세요.", &["adb"]), "Choisissez le fichier. adb");
    assert_eq!(tf(&state, "{} 파일을 선택해 주세요.", &["a", "b"]), "Choisissez le fichier. a b");
}

#[test]
fn each_place_of_the_message_is_filled_once_in_order() {
    let state = I18n::new(Vec::new());
    assert_eq!(tf(&state, "{}와 {}", &["{}", "b"]), "{}와 b");
    assert_eq!(tf(&state, "{}{}", &["{", "}"]), "{}");
    assert_eq!(tf(&state, "x", &["{}", "y"]), "x {} y");
}

#[test]
fn translation_files_become_tables_without_empty_texts() {
    let raw = r#"{"languages": ["en"], "strings": {
        "연결됐어요": {"en": "Connected", "de": "", "fr": 3, "ja": "接続しました"},
        "없음": 7}}"#;
    let table = adb_on::i18n::translation_table(raw);
    assert_eq!(table.len(), 2);
    let connected = table.iter().find(|e| e.key == "연결됐어요").unwrap();
    let mut texts = connected.texts.clone();
    texts.sort();
    assert_eq!(texts, vec![("en".to_string(), "Connected".to_string()), ("ja".to_string(), "接続しました".to_string())]);
    assert!(table.iter().find(|e| e.key == "없음").unwrap().texts.is_empty());
    assert!(adb_on::i18n::translation_table("not json").is_empty());
    assert!(adb_on::i18n::translation_table(r#"{"strings": []}"#).is_empty());
    let mut state = I18n::new(table);
    assert!(adb_on::i18n::set(&mut state, "en"));
    assert_eq!(t(&state, "연결됐어요"), "Connected");
}
