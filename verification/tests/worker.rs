use adb_on::worker::{finish_steps, pair_steps, Step};
use adb_on::address::{parse_ip_text, IpAddress};
use adb_on::i18n::I18n;
use adb_on::model::{devices, endpoint, services};
use adb_on::worker::{joined, status_failed, Session, SETUP_DETAIL, SETUP_TITLE, describe, expire, finish_pair, settle, Action, Discovery, PairStep, PendingPair, Screen};

#[test]
fn pairing_can_reuse_a_verified_address_after_discovery_expires() {
    let address = endpoint("192.168.1.3:44444").unwrap();
    let now: u64 = 1_000_000;
    let mut view = Screen { devices: devices("192.168.1.3:44444 device model:Phone\n"), ..Screen::default() };
    let mut discovery = Discovery::new();
    discovery.show(&mut view, now);
    view.devices.clear();
    let later = now + 121_000;
    discovery.update(vec![], later);
    discovery.show(&mut view, later);
    assert!(view.services.is_empty());
    assert_eq!(discovery.connection_address(&address.ip), Some(address));
    discovery.update(services("phone _adb-tls-connect._tcp 192.168.1.3:55555\n"), later);
    assert_eq!(discovery.connection_address(&address.ip).unwrap().port(), 55555);
    assert_eq!(discovery.connection_address(&parse_ip_text("192.168.1.4").unwrap()), None);
}

#[test]
fn fresh_advert_replaces_an_older_one_for_the_same_phone() {
    let now: u64 = 50_000;
    let mut discovery = Discovery::new();
    discovery.update(services("phone _adb-tls-connect._tcp 192.168.1.3:40000\n"), now);
    discovery.update(services("phone _adb-tls-connect._tcp 192.168.1.3:40001\n"), now + 1_000);
    let ip = parse_ip_text("192.168.1.3").unwrap();
    assert_eq!(discovery.connection_address(&ip).unwrap().port(), 40001);
    let mut view = Screen::default();
    discovery.show(&mut view, now + 1_000);
    assert_eq!(view.services.len(), 1);
    assert_eq!(view.services[0].address.port(), 40001);
}

#[test]
fn discovered_services_expire_without_news() {
    let mut discovery = Discovery::new();
    discovery.update(services("phone _adb-tls-connect._tcp 192.168.1.3:40000\n"), 10_000);
    let mut view = Screen::default();
    discovery.show(&mut view, 10_000);
    assert_eq!(view.services.len(), 1);
    discovery.update(vec![], 10_000 + 200_000);
    discovery.show(&mut view, 10_000 + 200_000);
    assert!(view.services.is_empty());
    assert_eq!(discovery.connection_address(&parse_ip_text("192.168.1.3").unwrap()), None);
}

#[test]
fn actions_that_start_over() {
    assert!(Action::Refresh.resets());
    assert!(Action::RemoveData.resets());
    assert!(Action::Language("en".to_string()).resets());
    assert!(Action::Install(true).resets());
    assert!(Action::Select("adb".to_string()).resets());
    assert!(!Action::Discover.resets());
    assert!(!Action::Connect("192.168.1.2:5555".to_string()).resets());
    assert!(!Action::WirelessPage(true).resets());
}

#[test]
fn describe_without_tool_asks_to_prepare_it() {
    let i18n = I18n::new(Vec::new());
    let mut view = Screen::default();
    describe(&mut view, &i18n);
    assert_eq!(view.connection, 0);
    assert_eq!(view.title, SETUP_TITLE);
    assert_eq!(view.detail, SETUP_DETAIL);
}

#[test]
fn describe_reports_connected_phone() {
    let i18n = I18n::new(Vec::new());
    let mut view = Screen { ready: true, devices: devices("R5ABC device model:Pixel_9\n"), ..Screen::default() };
    describe(&mut view, &i18n);
    assert_eq!(view.connection, 3);
    let mut empty = Screen { ready: true, ..Screen::default() };
    describe(&mut empty, &i18n);
    assert_eq!(empty.connection, 1);
    let mut pending = Screen { ready: true, devices: devices("R5ABC unauthorized\n"), ..Screen::default() };
    describe(&mut pending, &i18n);
    assert_eq!(pending.connection, 2);
}

#[test]
fn pairing_tries_the_advertised_connection_address_once() {
    let ip = parse_ip_text("192.168.1.3").unwrap();
    let mut discovery = Discovery::new();
    discovery.update(services("phone _adb-tls-connect._tcp 192.168.1.3:40000\n"), 5_000);
    let mut view = Screen { paired_ip: "192.168.1.3".to_string(), ..Screen::default() };
    let mut pending = Some(PendingPair { ip, started: 5_000, attempted: Vec::new() });
    match finish_pair(&mut view, &mut pending, &discovery) {
        PairStep::Attempt(a) => assert_eq!(a.port(), 40000),
        _ => panic!("expected an attempt"),
    }
    assert!(matches!(finish_pair(&mut view, &mut pending, &discovery), PairStep::Waiting));
    view.devices = devices("192.168.1.3:40000 device model:Phone\n");
    assert!(settle(&mut view, &mut pending));
    assert!(pending.is_none());
    assert!(view.paired_ip.is_empty());
}

#[test]
fn pairing_gives_up_after_its_patience() {
    let ip = IpAddress::V4(10, 0, 0, 7);
    let mut pending = Some(PendingPair { ip, started: 1_000, attempted: Vec::new() });
    expire(&mut pending, 1_000 + 29_999);
    assert!(pending.is_some());
    expire(&mut pending, 1_000 + 30_000);
    assert!(pending.is_none());
}

#[test]
fn session_searches_at_once_when_the_wireless_page_opens() {
    let mut session = Session::new();
    assert!(!session.search_due(10_000));
    session.wireless(true, 10_000);
    assert!(session.search_due(10_000));
    session.searched(10_000);
    assert!(!session.search_due(12_999));
    assert!(session.search_due(13_000));
    session.wireless(false, 20_000);
    assert!(!session.search_due(20_000));
    session.wireless(true, 1_000);
    assert_eq!(session.searched_at, 0);
}

#[test]
fn typed_addresses_stop_searches_and_pair_following() {
    let mut session = Session::new();
    session.manual(true, "192.168.1.3", 5_000);
    assert!(session.ignores(&Action::Discover));
    assert!(!session.ignores(&Action::Refresh));
    assert!(session.pending.is_none());
    session.wireless(true, 6_000);
    assert!(!session.search_due(60_000));
    session.manual(false, "192.168.1.3", 7_000);
    assert!(!session.ignores(&Action::Discover));
    let pending = session.pending.as_ref().unwrap();
    assert_eq!(pending.ip, IpAddress::V4(192, 168, 1, 3));
    assert_eq!(pending.started, 7_000);
    assert!(session.search_due(7_000));
    session.manual(false, "", 8_000);
    assert!(session.pending.is_none());
}

#[test]
fn a_pairing_is_followed_until_the_paired_phone_connects() {
    let mut session = Session::new();
    let mut view = Screen::default();
    session.paired(&mut view, "bad address", 1_000);
    assert!(view.paired_ip.is_empty());
    assert!(session.pending.is_none());
    session.paired(&mut view, "192.168.1.3:37123", 1_000);
    assert_eq!(view.paired_ip, "192.168.1.3");
    assert_eq!(session.pending.as_ref().unwrap().started, 1_000);
    session.after_pair(10_500);
    assert!(session.pending.is_some());
    assert!(session.search_due(10_500));
    session.connected(&mut view, "192.168.1.4:5555");
    assert_eq!(view.paired_ip, "192.168.1.3");
    assert!(session.pending.is_some());
    session.connected(&mut view, "192.168.1.3:41000");
    assert!(view.paired_ip.is_empty());
    assert!(session.pending.is_none());
    let mut manual = Session::new();
    manual.manual(true, "", 0);
    manual.paired(&mut view, "[fe80::1]:37123", 2_000);
    assert_eq!(view.paired_ip, "fe80::1");
    manual.after_pair(2_000);
    assert!(manual.pending.is_none());
}

#[test]
fn notices_join_the_result_and_the_status_failure() {
    assert_eq!(joined(String::new(), "b".to_string()), "b");
    assert_eq!(joined("a".to_string(), "b".to_string()), "a b");
}

#[test]
fn a_pairing_advert_never_becomes_the_connection_address() {
    let ip = parse_ip_text("192.168.1.4").unwrap();
    let mut discovery = Discovery::new();
    discovery.update(services("phone _adb-tls-connect._tcp 192.168.1.4:44444\n"), 9_000);
    discovery.update(services("phone _adb-tls-pairing._tcp 192.168.1.4:33333\n"), 9_500);
    assert_eq!(discovery.connection_address(&ip).unwrap().port(), 44444);
    let mut only_pairing = Discovery::new();
    only_pairing.update(services("phone _adb-tls-pairing._tcp 192.168.1.4:33333\n"), 9_500);
    assert_eq!(only_pairing.connection_address(&ip), None);
}

#[test]
fn the_subscription_is_reopened_after_its_interval() {
    let i18n = I18n::new(Vec::new());
    let mut session = Session::new();
    let mut view = Screen { ready: true, ..Screen::default() };
    session.subscription_lost(&mut view, &i18n, &adb_on::i18n::Notice::ServerClosed, 20_000);
    assert_eq!(view.server_notice, "ADB 서버 연결이 끊어졌습니다. 연결 상태를 다시 확인하고 있어요.");
    assert!(!session.retry_due(24_999));
    assert!(session.retry_due(25_000));
    session.retried(25_000);
    assert!(!session.retry_due(29_000));
}

#[test]
fn without_a_tool_the_screen_forgets_the_tool_and_devices() {
    let mut session = Session::new();
    let mut view = Screen {
        path: "/opt/adb".to_string(),
        source: "PATH".to_string(),
        source_kind: 4,
        devices: devices("R5ABC device\n"),
        ..Screen::default()
    };
    session.settle_tool(&mut view, true, 7_000);
    assert!(view.ready);
    assert_eq!(view.path, "/opt/adb");
    assert_eq!(view.devices.len(), 1);
    session.settle_tool(&mut view, false, 8_000);
    assert!(!view.ready);
    assert!(view.path.is_empty() && view.source.is_empty() && view.devices.is_empty());
    assert_eq!(view.source_kind, 0);
    assert_eq!(session.retried_at, 8_000);
}

#[test]
fn a_failed_status_check_follows_the_action_result() {
    let mut view = Screen { notice: "done".to_string(), devices: devices("R5ABC device\n"), ..Screen::default() };
    status_failed(&mut view, "no server".to_string());
    assert_eq!(view.notice, "done no server");
    assert!(view.devices.is_empty());
    let mut quiet = Screen::default();
    status_failed(&mut quiet, "no server".to_string());
    assert_eq!(quiet.notice, "no server");
}

#[test]
fn the_work_after_an_action_comes_in_order() {
    assert_eq!(
        pair_steps(false),
        vec![Step::ListDevices, Step::Discover, Step::ShowServices, Step::FollowPair, Step::AfterPair]
    );
    assert_eq!(pair_steps(true), vec![Step::ListDevices, Step::ShowServices, Step::FollowPair, Step::AfterPair]);
    assert_eq!(finish_steps(true, true), vec![Step::ListDevices]);
    assert_eq!(finish_steps(true, false), vec![Step::ListDevices, Step::SettleTool, Step::OpenStatus]);
    assert_eq!(finish_steps(false, false), vec![Step::SettleTool]);
    assert!(finish_steps(false, true).is_empty());
}
