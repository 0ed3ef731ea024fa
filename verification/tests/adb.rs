use adb_on::adb::{without_verbatim, Incoming, Tracker};

#[test]
fn verbatim_prefix_is_removed_only_for_windows_forms() {
    let plain = |s: &str| without_verbatim(s);
    assert_eq!(plain(r"\\?\C:\Sdk\adb.exe"), r"C:\Sdk\adb.exe");
    assert_eq!(plain(r"\\?\UNC\nas\sdk\adb.exe"), r"\\nas\sdk\adb.exe");
    assert_eq!(plain(r"C:\Sdk\adb.exe"), r"C:\Sdk\adb.exe");
    assert_eq!(plain("/opt/sdk/adb"), "/opt/sdk/adb");
    let volume = r"\\?\Volume{1b2c}\sdk\adb.exe";
    assert_eq!(plain(volume), volume);
}

#[test]
fn device_events_survive_partial_headers_and_multiple_frames() {
    let mut tracker = Tracker::new();
    assert!(tracker.poll(Incoming::Data(b"000".to_vec())).unwrap().is_none());
    let body = "serial\tunauthorized\n";
    let frame = format!("{:04x}{body}", body.len());
    assert_eq!(
        tracker.poll(Incoming::Data(format!("0{frame}0000").into_bytes())).unwrap(),
        Some(vec![])
    );
    assert_eq!(
        tracker.poll(Incoming::Data(frame.into_bytes())).unwrap().unwrap()[0].state,
        "unauthorized"
    );
}
