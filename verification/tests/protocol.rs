use adb_on::adb::{
    input_acceptable, reply_length, request_frame, server_version, Adb, Answer, Command, Incoming, Tracker,
};
use adb_on::i18n::Notice;
use adb_on::model::devices;
use adb_on::platform::Platform;

fn tool() -> Adb {
    Adb { path: "/opt/sdk/adb".to_string(), protocol: 41, version: String::new() }
}

fn strings(items: &[&str]) -> Vec<String> {
    items.iter().map(|s| s.to_string()).collect()
}

#[test]
fn request_frames_carry_a_hex_length_prefix() {
    assert_eq!(request_frame("host:version"), b"000chost:version".to_vec());
    assert_eq!(request_frame("host:track-devices-l"), b"0014host:track-devices-l".to_vec());
    assert_eq!(request_frame(""), b"0000".to_vec());
}

#[test]
fn server_version_reads_each_kind_of_answer() {
    assert_eq!(server_version(&Answer::Refused), Ok(None));
    assert_eq!(server_version(&Answer::Unreachable), Err(Notice::ServerUnreachable));
    assert_eq!(server_version(&Answer::WriteFailed), Err(Notice::ServerRequestFailed));
    assert_eq!(server_version(&Answer::Reply(b"OKAY0004001f".to_vec())), Ok(Some(31)));
    assert_eq!(server_version(&Answer::Reply(b"OKAY00040029".to_vec())), Ok(Some(41)));
    assert_eq!(server_version(&Answer::Reply(b"OK".to_vec())), Err(Notice::ServerSilent));
    assert_eq!(server_version(&Answer::Reply(b"FAIL0004".to_vec())), Err(Notice::ServerUnsupported));
    assert_eq!(server_version(&Answer::Reply(b"OKAY00".to_vec())), Err(Notice::ServerReply));
    assert_eq!(server_version(&Answer::Reply(b"OKAY0000".to_vec())), Err(Notice::ServerReply));
    assert_eq!(server_version(&Answer::Reply(b"OKAY00040".to_vec())), Err(Notice::ServerReply));
    assert_eq!(server_version(&Answer::Reply(b"OKAY0004zzzz".to_vec())), Err(Notice::ServerVersion));
    assert_eq!(reply_length(b"OKAY0004"), Some(4));
    assert_eq!(reply_length(b"OKAY0011"), None);
    assert_eq!(reply_length(b"FAIL0004"), None);
}

#[test]
fn inspect_reads_the_protocol_from_the_version_banner() {
    let out = "Android Debug Bridge version 1.0.41\nVersion 35.0.2-12147458\nInstalled as /opt/sdk/adb\n";
    let adb = Adb::inspect(Platform::Linux, Some("/opt/sdk/adb".to_string()), Some("adb"), true, Some(out)).unwrap();
    assert_eq!(adb.path, "/opt/sdk/adb");
    assert_eq!(adb.protocol, 41);
    assert_eq!(adb.version, "Android Debug Bridge version 1.0.41 / Version 35.0.2-12147458");
    let check = |out: Option<&str>| Adb::inspect(Platform::Linux, Some("x/adb".to_string()), Some("adb"), true, out).err();
    assert_eq!(check(Some("hello\n")), Some(Notice::NotAdb));
    assert_eq!(check(Some("Android Debug Bridge version 1.0.x\n")), Some(Notice::NotAdb));
    assert_eq!(check(Some("")), Some(Notice::NotAdb));
    assert_eq!(check(None), Some(Notice::NotAdb));
}

#[test]
fn inspect_refuses_a_missing_or_wrongly_named_file_first() {
    let out = Some("Android Debug Bridge version 1.0.41\n");
    assert_eq!(Adb::inspect(Platform::Windows, None, None, false, out).err(), Some(Notice::AdbMissing));
    assert_eq!(
        Adb::inspect(Platform::Windows, Some("C:\\x\\adb".to_string()), Some("adb"), true, out).err(),
        Some(Notice::SelectFile("adb.exe".to_string()))
    );
    assert_eq!(
        Adb::inspect(Platform::Linux, Some("/x/adb".to_string()), Some("adb"), false, out).err(),
        Some(Notice::SelectFile("adb".to_string()))
    );
    assert!(Adb::inspect(Platform::Windows, Some("C:\\x\\adb.exe".to_string()), Some("adb.exe"), true, out).is_ok());
}

#[test]
fn commands_name_the_default_server_and_keep_the_code_out_of_arguments() {
    let adb = tool();
    assert_eq!(
        adb.list(Ok(None)).unwrap(),
        Command {
            program: "/opt/sdk/adb".to_string(),
            args: strings(&["-H", "localhost", "-P", "5037", "devices", "-l"]),
            input: None,
            seconds: 12,
        }
    );
    assert_eq!(adb.discover(Ok(Some(41))).unwrap().args, strings(&["-H", "localhost", "-P", "5037", "mdns", "services"]));
    let pair = adb.pair(Ok(None), " 192.168.1.5 37123 ", "12 34 56").unwrap();
    assert_eq!(pair.args, strings(&["-H", "localhost", "-P", "5037", "pair", "192.168.1.5:37123"]));
    assert_eq!(pair.input, Some("123456".to_string()));
    let connect = adb.connect(Ok(None), "[fe80::1]:5555").unwrap();
    assert_eq!(connect.args, strings(&["-H", "localhost", "-P", "5037", "connect", "[fe80::1]:5555"]));
}

#[test]
fn commands_refuse_bad_input_and_an_incompatible_server() {
    let adb = tool();
    assert_eq!(adb.list(Ok(Some(40))), Err(Notice::VersionMismatch));
    assert_eq!(adb.list(Err(Notice::ServerSilent)), Err(Notice::ServerSilent));
    assert_eq!(adb.pair(Ok(None), "phone", "123456"), Err(Notice::AddressFormat));
    assert_eq!(adb.pair(Ok(None), "192.168.1.5:0", "123456"), Err(Notice::AddressRange));
    assert_eq!(adb.pair(Ok(None), "192.168.1.5:37123", "12345"), Err(Notice::PairingCode));
    assert_eq!(adb.connect(Ok(None), "0.0.0.0:5555"), Err(Notice::AddressRange));
    assert_eq!(adb.compatible(Ok(Some(41))), Ok(()));
    assert_eq!(adb.compatible(Ok(Some(39))), Err(Notice::VersionMismatch));
}

#[test]
fn disconnect_only_touches_listed_wireless_devices() {
    let adb = tool();
    let listed = devices("R5ABC device model:Pixel\n192.168.1.9:5555 device model:Tab\n");
    let cmd = adb.disconnect(&listed, Ok(None), "192.168.1.9:5555").unwrap();
    assert_eq!(cmd.args, strings(&["-H", "localhost", "-P", "5037", "disconnect", "192.168.1.9:5555"]));
    assert_eq!(adb.disconnect(&listed, Ok(None), "R5ABC"), Err(Notice::NotListedWireless));
    assert_eq!(adb.disconnect(&listed, Ok(None), "192.168.1.8:5555"), Err(Notice::NotListedWireless));
    assert_eq!(adb.disconnect(&listed, Ok(None), ""), Err(Notice::NotListedWireless));
}

#[test]
fn confirmations_are_read_from_the_output() {
    assert_eq!(Adb::paired("Successfully paired to 192.168.1.5:37123 [guid=adb-X]\n"), Ok(()));
    assert_eq!(Adb::paired("Failed: Wrong password or connection was dropped.\n"), Err(Notice::NotPaired));
    assert_eq!(Adb::connected("connected to 192.168.1.5:5555\n"), Ok(()));
    assert_eq!(Adb::connected("already connected to 192.168.1.5:5555\n"), Ok(()));
    assert_eq!(Adb::connected("failed to connect to 192.168.1.5:5555\n"), Err(Notice::NotConnected));
}

#[test]
fn check_file_wants_the_platform_executable() {
    assert_eq!(Adb::check_file(Platform::Windows, Some("adb.exe"), true), Ok(()));
    assert_eq!(Adb::check_file(Platform::Linux, Some("adb"), true), Ok(()));
    assert_eq!(Adb::check_file(Platform::Windows, Some("adb"), true), Err(Notice::SelectFile("adb.exe".to_string())));
    assert_eq!(Adb::check_file(Platform::MacOs, Some("adb"), false), Err(Notice::SelectFile("adb".to_string())));
    assert_eq!(Adb::check_file(Platform::MacOs, None, true), Err(Notice::SelectFile("adb".to_string())));
}

#[test]
fn tracking_needs_an_okay_answer() {
    let adb = tool();
    assert!(adb.track(Ok(None), &Answer::Reply(b"OKAY".to_vec())).is_ok());
    assert_eq!(adb.track(Ok(None), &Answer::Refused).err(), Some(Notice::TrackFailed));
    assert_eq!(adb.track(Ok(None), &Answer::Reply(b"FAIL".to_vec())).err(), Some(Notice::ServerUnsupported));
    assert_eq!(adb.track(Ok(Some(1)), &Answer::Reply(b"OKAY".to_vec())).err(), Some(Notice::VersionMismatch));
}

#[test]
fn tracker_reports_closing_idle_and_bad_frames() {
    let mut tracker = Tracker::new();
    assert_eq!(tracker.poll(Incoming::Idle), Ok(None));
    assert_eq!(tracker.poll(Incoming::Closed), Err(Notice::ServerClosed));
    let mut tracker = Tracker::new();
    assert_eq!(tracker.poll(Incoming::Data(b"zzzzabc".to_vec())), Err(Notice::TrackReply));
    let mut tracker = Tracker::new();
    let listed = tracker.poll(Incoming::Data(b"0000".to_vec())).unwrap().unwrap();
    assert!(listed.is_empty());
}

#[test]
fn command_input_is_one_short_line() {
    assert!(input_acceptable(None));
    assert!(input_acceptable(Some("123456")));
    assert!(!input_acceptable(Some("12\n34")));
    assert!(!input_acceptable(Some(&"1".repeat(65))));
    assert!(input_acceptable(Some(&"1".repeat(64))));
}

#[test]
fn a_written_frame_reads_back_as_its_payload() {
    let mut tracker = Tracker::new();
    let frame = request_frame("192.168.1.3:5555\tdevice product:x model:Phone device:y\n");
    let listed = tracker.poll(Incoming::Data(frame)).unwrap().unwrap();
    assert_eq!(listed.len(), 1);
    assert_eq!(listed[0].serial, "192.168.1.3:5555");
    assert_eq!(listed[0].state, "device");
    assert_eq!(tracker.poll(Incoming::Data(request_frame(""))), Ok(Some(vec![])));
}

#[test]
fn only_listed_wireless_devices_may_be_disconnected() {
    let listed = devices("R5ABC device\n192.168.1.9:5555 device\n");
    assert!(Adb::disconnectable(&listed, "192.168.1.9:5555"));
    assert!(!Adb::disconnectable(&listed, "R5ABC"));
    assert!(!Adb::disconnectable(&listed, "192.168.1.8:5555"));
}
