//! The connection screen's state and the decisions of the background loop:
//! what the status says, which wireless services are offered, and where a
//! freshly paired phone can be reached.
use vstd::prelude::*;
use crate::address::{Endpoint, IpAddress};
use crate::i18n::{I18n, Notice, fill, message, notice_text, t, tf, translate};
use crate::model::{
    Device, DeviceView, Service, ServiceView, endpoint, endpoint_of, is_same_phone, same_phone,
};
use crate::text::{chars_of, push_str, same_chars};

verus! {

broadcast use vstd::string::group_string_axioms;

/// A request from the user interface.
pub enum Action {
    Refresh,
    Discover,
    WirelessPage(bool),
    ManualAddresses(bool),
    Pair(String, String),
    Connect(String),
    Disconnect(String),
    Install(bool),
    Select(String),
    RemoveData,
    Language(String),
}

/// Whether an action starts over: it forgets the wireless services found so
/// far.
pub open spec fn starts_over(a: Action) -> bool {
    match a {
        Action::Refresh | Action::Install(_) | Action::Select(_) | Action::RemoveData
        | Action::Language(_) => true,
        _ => false,
    }
}

impl Action {
    /// Whether this action starts over (tool or language changed, or a
    /// refresh was asked for).
    pub fn resets(&self) -> (r: bool)
        ensures
            r == starts_over(*self),
    {
        match self {
            Action::Refresh | Action::Install(_) | Action::Select(_) | Action::RemoveData
            | Action::Language(_) => true,
            _ => false,
        }
    }
}

/// What the window shows (the connection screen).
#[derive(Clone)]
pub struct Screen {
    pub ready: bool,
    pub busy: bool,
    pub finished: bool,
    pub title: String,
    /// Colour of the status dot: 0 no tool (grey), 1 no phone (red), 2 action
    /// needed (yellow), 3 connected (green).
    pub connection: i32,
    /// USB guide step to open from the home card, or -1.
    pub guide_hint: i32,
    /// USB guide step that the link inside the detail opens, or -1.
    pub link_step: i32,
    /// Whether to offer "What can I do with ADB?" after connecting.
    pub adb_help: bool,
    /// A detail with a link comes in three parts: before the link, the link
    /// text, after it; all empty when there is no link.
    pub detail_pre: String,
    pub detail_link: String,
    pub detail_post: String,
    /// A sentence shown in bold before the detail; may be empty.
    pub lead: String,
    pub detail: String,
    pub notice: String,
    pub path: String,
    pub source: String,
    pub source_kind: i32,
    pub devices: Vec<Device>,
    pub services: Vec<Service>,
    /// Whether a wireless search has finished at least once.
    pub searched: bool,
    pub discovery_notice: String,
    pub server_notice: String,
    pub paired_ip: String,
}

impl Default for Screen {
    fn default() -> (r: Screen)
        ensures
            !r.ready && !r.busy && !r.finished && !r.adb_help && !r.searched,
            r.title@.len() == 0 && r.detail_pre@.len() == 0 && r.detail_link@.len() == 0
                && r.detail_post@.len() == 0 && r.lead@.len() == 0 && r.detail@.len() == 0
                && r.notice@.len() == 0 && r.path@.len() == 0 && r.source@.len() == 0
                && r.discovery_notice@.len() == 0 && r.server_notice@.len() == 0
                && r.paired_ip@.len() == 0,
            r.connection == 0 && r.guide_hint == 0 && r.link_step == 0 && r.source_kind == 0,
            r.devices@.len() == 0 && r.services@.len() == 0,
    {
        Screen {
            ready: false,
            busy: false,
            finished: false,
            title: String::new(),
            connection: 0,
            guide_hint: 0,
            link_step: 0,
            adb_help: false,
            detail_pre: String::new(),
            detail_link: String::new(),
            detail_post: String::new(),
            lead: String::new(),
            detail: String::new(),
            notice: String::new(),
            path: String::new(),
            source: String::new(),
            source_kind: 0,
            devices: Vec::new(),
            services: Vec::new(),
            searched: false,
            discovery_notice: String::new(),
            server_notice: String::new(),
            paired_ip: String::new(),
        }
    }
}

pub const SETUP_TITLE: &'static str = "처음 한 번만 준비해 주세요";

pub const SETUP_DETAIL: &'static str = "휴대폰과 연결하려면 Google 도구(ADB)가 필요해요. 기존 도구를 찾거나 여기서 준비할 수 있어요.";

pub const CONNECTED_TITLE: &'static str = "연결됐어요";

pub const CONNECTED_DETAIL: &'static str = "이 PC의 개발 도구에서 휴대폰을 선택하세요.";

pub const ALLOW_TITLE: &'static str = "휴대폰에서 ‘허용’을 눌러 주세요";

pub const ALLOW_LEAD: &'static str = "휴대폰의 USB 디버깅은 켜져 있어요. 이 PC를 허용하는 일만 남았어요.";

pub const ALLOW_PRE: &'static str = "휴대폰 잠금을 풀면 ‘USB 디버깅을 허용하시겠습니까?’ 창이 떠요. ‘이 컴퓨터에서 항상 허용’을 켜고 허용을 누르세요. 상단의 ‘USB로 파일 전송’ 알림은 이 창이 아니에요.\n\n창이 안 보이면 잠금을 푼 채 케이블을 뽑았다 다시 꽂아 보세요. 알림을 내렸을 때 ‘USB 디버깅 연결됨’이 보이면 디버깅은 켜진 거예요.\n\n그래도 없으면 ";

pub const ALLOW_LINK: &'static str = "개발자 옵션";

pub const ALLOW_POST: &'static str = "에서 ‘USB 디버깅 권한 취소’를 누르고, ‘USB 디버깅’을 껐다가 다시 켠 뒤 케이블을 다시 꽂으세요. 개발자 옵션은 휴대폰 설정 앱의 맨 아래에 있어요. 없으면 위 링크의 1단계대로 만드세요.";

pub const OFFLINE_TITLE: &'static str = "휴대폰이 응답을 기다리고 있어요";

pub const OFFLINE_DETAIL: &'static str = "잠금을 풀고 케이블을 다시 연결해 주세요. 무선이면 휴대폰의 무선 디버깅이 켜져 있는지 확인해 주세요.";

pub const MODE_TITLE: &'static str = "휴대폰이 일반 실행 상태가 아니에요";

pub const MODE_DETAIL: &'static str = "복구·부트로더 모드에서는 앱 개발 연결을 사용할 수 없어요. 휴대폰을 정상 모드로 켜 주세요.";

pub const EMPTY_TITLE: &'static str = "휴대폰을 연결해 주세요";

pub const EMPTY_LEAD: &'static str = "USB 케이블을 꽂으면 자동으로 확인해요.";

pub const EMPTY_DETAIL: &'static str = "케이블 없이 연결하려면 아래 ‘무선 연결’을 눌러 주세요.";

/// Whether some device is in the given state.
pub open spec fn has_state(devices: Seq<Device>, state: Seq<char>) -> bool {
    exists|i: int| 0 <= i < devices.len() && #[trigger] devices[i].state@ == state
}

/// The colour of the status dot: no tool, then a server notice, then a
/// connected phone, then no device at all; any other device needs action.
pub open spec fn connection_of(v: Screen) -> i32 {
    if !v.ready {
        0
    } else if v.server_notice@.len() > 0 {
        2
    } else if has_state(v.devices@, "device"@) {
        3
    } else if v.devices@.len() == 0 {
        1
    } else {
        2
    }
}

/// The status sentences in place: title, lead, detail parts and hints for
/// the situation (first match wins: no tool; a connected phone; a phone
/// waiting for approval; an offline phone; another state such as recovery;
/// no device).
pub open spec fn described(v: Screen, s: I18n) -> bool {
    let tr = |k: &str| translate(s, k@);
    &&& v.connection == connection_of(v)
    &&& if !v.ready {
        &&& v.title@ == tr(SETUP_TITLE)
        &&& v.detail@ == tr(SETUP_DETAIL)
        &&& v.lead@.len() == 0
        &&& v.guide_hint == -1 && v.link_step == -1 && !v.adb_help
        &&& v.detail_pre@.len() == 0 && v.detail_link@.len() == 0 && v.detail_post@.len() == 0
    } else if has_state(v.devices@, "device"@) {
        &&& v.title@ == tr(CONNECTED_TITLE)
        &&& v.detail@ == tr(CONNECTED_DETAIL)
        &&& v.lead@.len() == 0
        &&& v.guide_hint == -1 && v.link_step == -1 && v.adb_help
        &&& v.detail_pre@.len() == 0 && v.detail_link@.len() == 0 && v.detail_post@.len() == 0
    } else if has_state(v.devices@, "unauthorized"@) {
        &&& v.title@ == tr(ALLOW_TITLE)
        &&& v.lead@ == tr(ALLOW_LEAD)
        &&& v.detail_pre@ == tr(ALLOW_PRE)
        &&& v.detail_link@ == tr(ALLOW_LINK)
        &&& v.detail_post@ == tr(ALLOW_POST)
        &&& v.detail@ == tr(ALLOW_PRE) + tr(ALLOW_LINK) + tr(ALLOW_POST)
        &&& v.guide_hint == 2 && v.link_step == 0 && !v.adb_help
    } else if has_state(v.devices@, "offline"@) {
        &&& v.title@ == tr(OFFLINE_TITLE)
        &&& v.detail@ == tr(OFFLINE_DETAIL)
        &&& v.lead@.len() == 0
        &&& v.guide_hint == 3 && v.link_step == -1 && !v.adb_help
        &&& v.detail_pre@.len() == 0 && v.detail_link@.len() == 0 && v.detail_post@.len() == 0
    } else if v.devices@.len() > 0 {
        &&& v.title@ == tr(MODE_TITLE)
        &&& v.detail@ == tr(MODE_DETAIL)
        &&& v.lead@.len() == 0
        &&& v.guide_hint == -1 && v.link_step == -1 && !v.adb_help
        &&& v.detail_pre@.len() == 0 && v.detail_link@.len() == 0 && v.detail_post@.len() == 0
    } else {
        &&& v.title@ == tr(EMPTY_TITLE)
        &&& v.lead@ == tr(EMPTY_LEAD)
        &&& v.detail@ == tr(EMPTY_DETAIL)
        &&& v.guide_hint == -1 && v.link_step == -1 && !v.adb_help
        &&& v.detail_pre@.len() == 0 && v.detail_link@.len() == 0 && v.detail_post@.len() == 0
    }
}

/// Everything but the status sentences and hints is the same.
pub open spec fn same_data(a: Screen, b: Screen) -> bool {
    &&& a.ready == b.ready && a.busy == b.busy && a.finished == b.finished
    &&& a.notice == b.notice && a.path == b.path && a.source == b.source && a.source_kind
        == b.source_kind
    &&& a.devices == b.devices && a.services == b.services && a.searched == b.searched
    &&& a.discovery_notice == b.discovery_notice && a.server_notice == b.server_notice
    &&& a.paired_ip == b.paired_ip
}

/// Whether some device is in the given state.
pub fn any_state(devices: &Vec<Device>, state: &str) -> (r: bool)
    ensures
        r == has_state(devices@, state@),
{
    let s = chars_of(state);
    let mut i: usize = 0;
    while i < devices.len()
        invariant
            i <= devices@.len(),
            s@ == state@,
            forall|j: int| 0 <= j < i ==> #[trigger] devices@[j].state@ != state@,
        decreases devices@.len() - i,
    {
        let d = chars_of(devices[i].state.as_str());
        if same_chars(&d, &s) {
            return true;
        }
        i = i + 1;
    }
    false
}

/// Writes the status sentences and hints for the current situation.
pub fn describe(view: &mut Screen, s: &I18n)
    ensures
        described(*final(view), *s),
        same_data(*old(view), *final(view)),
{
    view.lead = String::new();
    view.guide_hint = -1;
    view.link_step = -1;
    view.adb_help = false;
    view.detail_pre = String::new();
    view.detail_link = String::new();
    view.detail_post = String::new();
    let connected = any_state(&view.devices, "device");
    view.connection = if !view.ready {
        0
    } else if view.server_notice.as_str().unicode_len() > 0 {
        2
    } else if connected {
        3
    } else if view.devices.len() == 0 {
        1
    } else {
        2
    };
    if !view.ready {
        view.title = t(s, SETUP_TITLE);
        view.detail = t(s, SETUP_DETAIL);
    } else if connected {
        view.title = t(s, CONNECTED_TITLE);
        view.detail = t(s, CONNECTED_DETAIL);
        view.adb_help = true;
    } else if any_state(&view.devices, "unauthorized") {
        view.title = t(s, ALLOW_TITLE);
        view.lead = t(s, ALLOW_LEAD);
        view.detail_pre = t(s, ALLOW_PRE);
        view.detail_link = t(s, ALLOW_LINK);
        view.detail_post = t(s, ALLOW_POST);
        let mut d = String::new();
        push_str(&mut d, view.detail_pre.as_str());
        push_str(&mut d, view.detail_link.as_str());
        push_str(&mut d, view.detail_post.as_str());
        view.detail = d;
        view.guide_hint = 2;
        view.link_step = 0;
    } else if any_state(&view.devices, "offline") {
        view.title = t(s, OFFLINE_TITLE);
        view.detail = t(s, OFFLINE_DETAIL);
        view.guide_hint = 3;
    } else if view.devices.len() > 0 {
        view.title = t(s, MODE_TITLE);
        view.detail = t(s, MODE_DETAIL);
    } else {
        view.title = t(s, EMPTY_TITLE);
        view.lead = t(s, EMPTY_LEAD);
        view.detail = t(s, EMPTY_DETAIL);
    }
}

// ---------------------------------------------------------------------------
// Wireless services found so far
// ---------------------------------------------------------------------------

/// How long an mDNS advertisement is kept after it was last seen, in
/// milliseconds: pairing services briefly, connection services longer, so
/// that a short gap in discovery does not erase a candidate.
pub open spec fn window(pairing: bool) -> u64 {
    if pairing {
        12_000
    } else {
        120_000
    }
}

/// Milliseconds from `seen` to `now` (0 when `seen` is later).
pub open spec fn age(now: u64, seen: u64) -> u64 {
    if now >= seen {
        (now - seen) as u64
    } else {
        0
    }
}

/// Whether a new advertisement `s` replaces the entry `old`: the same kind of
/// service, for the same IP or the same (non-empty) instance name.
pub open spec fn replaces(s: ServiceView, old: ServiceView) -> bool {
    old.pairing == s.pairing && (old.address.ip == s.address.ip || (old.name.len() > 0 && old.name
        == s.name))
}

/// The entries that `s` does not replace, in order.
pub open spec fn kept(es: Seq<(ServiceView, u64)>, s: ServiceView) -> Seq<(ServiceView, u64)>
    decreases es.len(),
{
    if es.len() == 0 {
        seq![]
    } else if replaces(s, es.last().0) {
        kept(es.drop_last(), s)
    } else {
        kept(es.drop_last(), s).push(es.last())
    }
}

/// The entries after taking in the advertisements in order.
pub open spec fn absorb(es: Seq<(ServiceView, u64)>, news: Seq<ServiceView>, now: u64) -> Seq<
    (ServiceView, u64),
>
    decreases news.len(),
{
    if news.len() == 0 {
        es
    } else {
        kept(absorb(es, news.drop_last(), now), news.last()).push((news.last(), now))
    }
}

/// The entries still inside their window at `now`.
pub open spec fn fresh(es: Seq<(ServiceView, u64)>, now: u64) -> Seq<(ServiceView, u64)>
    decreases es.len(),
{
    if es.len() == 0 {
        seq![]
    } else if age(now, es.last().1) < window(es.last().0.pairing) {
        fresh(es.drop_last(), now).push(es.last())
    } else {
        fresh(es.drop_last(), now)
    }
}

/// The connection addresses among the entries for `ip`, in order.
pub open spec fn candidates(es: Seq<(ServiceView, u64)>, ip: IpAddress) -> Seq<Endpoint>
    decreases es.len(),
{
    if es.len() == 0 {
        seq![]
    } else if !es.last().0.pairing && es.last().0.address.ip == ip {
        candidates(es.drop_last(), ip).push(es.last().0.address)
    } else {
        candidates(es.drop_last(), ip)
    }
}

/// The address to connect to for a phone at `ip`: the one connection service
/// advertised for it; with none, the address it was last connected at; with
/// several, none.
pub open spec fn reach(es: Seq<(ServiceView, u64)>, m: Map<IpAddress, Endpoint>, ip: IpAddress) -> Option<Endpoint> {
    let c = candidates(es, ip);
    if c.len() == 1 {
        Some(c[0])
    } else if c.len() == 0 {
        if m.contains_key(ip) {
            Some(m[ip])
        } else {
            None
        }
    } else {
        None
    }
}

/// The map that a list of (key, value) pairs stands for; a later pair wins.
pub open spec fn map_of(s: Seq<(IpAddress, Endpoint)>) -> Map<IpAddress, Endpoint>
    decreases s.len(),
{
    if s.len() == 0 {
        Map::empty()
    } else {
        map_of(s.drop_last()).insert(s.last().0, s.last().1)
    }
}

/// The pairs without key `k`.
pub open spec fn without_key(s: Seq<(IpAddress, Endpoint)>, k: IpAddress) -> Seq<
    (IpAddress, Endpoint),
>
    decreases s.len(),
{
    if s.len() == 0 {
        seq![]
    } else if s.last().0 == k {
        without_key(s.drop_last(), k)
    } else {
        without_key(s.drop_last(), k).push(s.last())
    }
}

proof fn lemma_without_key(s: Seq<(IpAddress, Endpoint)>, k: IpAddress)
    ensures
        map_of(without_key(s, k)) == map_of(s).remove(k),
    decreases s.len(),
{
    if s.len() == 0 {
        assert(map_of(s).remove(k) =~= Map::<IpAddress, Endpoint>::empty());
    } else {
        lemma_without_key(s.drop_last(), k);
        if s.last().0 == k {
            assert(map_of(s).remove(k) =~= map_of(s.drop_last()).remove(k));
        } else {
            assert(without_key(s, k).drop_last() =~= without_key(s.drop_last(), k));
            assert(map_of(without_key(s, k)) =~= map_of(s.drop_last()).remove(k).insert(
                s.last().0,
                s.last().1,
            ));
            assert(map_of(s).remove(k) =~= map_of(s.drop_last()).remove(k).insert(
                s.last().0,
                s.last().1,
            ));
        }
    }
}

/// Wireless services seen recently, each with the time it was last seen,
/// and the address each phone was last connected at. Kept for the session
/// only; a fresh advertisement replaces a phone's previous port.
pub struct Discovery {
    services: Vec<(Service, u64)>,
    last_connected: Vec<(IpAddress, Endpoint)>,
}

/// The entries as plain values.
pub open spec fn entries_view(v: Seq<(Service, u64)>) -> Seq<(ServiceView, u64)> {
    v.map_values(|e: (Service, u64)| (e.0@, e.1))
}

impl Discovery {
    /// The services seen, with the time each was last seen.
    pub closed spec fn entries(self) -> Seq<(ServiceView, u64)> {
        entries_view(self.services@)
    }

    /// The address each phone was last connected at, by IP.
    pub closed spec fn connected(self) -> Map<IpAddress, Endpoint> {
        map_of(self.last_connected@)
    }

    /// Nothing seen yet.
    pub fn new() -> (r: Discovery)
        ensures
            r.entries() == Seq::<(ServiceView, u64)>::empty(),
            r.connected() == Map::<IpAddress, Endpoint>::empty(),
    {
        let r = Discovery { services: Vec::new(), last_connected: Vec::new() };
        assert(r.entries() =~= Seq::<(ServiceView, u64)>::empty());
        r
    }

    /// The address to connect to for the phone at `ip`.
    pub fn connection_address(&self, ip: &IpAddress) -> (r: Option<Endpoint>)
        ensures
            r == reach(self.entries(), self.connected(), *ip),
    {
        let mut found: Vec<Endpoint> = Vec::new();
        let mut i: usize = 0;
        let ghost es = self.entries();
        assert(es.take(0) =~= Seq::<(ServiceView, u64)>::empty());
        while i < self.services.len()
            invariant
                i <= self.services@.len(),
                es == entries_view(self.services@),
                found@ == candidates(es.take(i as int), *ip),
            decreases self.services@.len() - i,
        {
            assert(es.take(i + 1).drop_last() =~= es.take(i as int));
            let e = &self.services[i];
            if !e.0.pairing && e.0.address.ip == *ip {
                found.push(e.0.address);
            }
            i = i + 1;
        }
        assert(es.take(self.services@.len() as int) =~= es);
        if found.len() == 1 {
            Some(found[0])
        } else if found.len() == 0 {
            self.lookup(ip)
        } else {
            None
        }
    }

    /// The address the phone at `ip` was last connected at.
    fn lookup(&self, ip: &IpAddress) -> (r: Option<Endpoint>)
        ensures
            self.connected().contains_key(*ip) ==> r == Some(self.connected()[*ip]),
            !self.connected().contains_key(*ip) ==> r is None,
    {
        let mut n = self.last_connected.len();
        let ghost s = self.last_connected@;
        assert(s.take(n as int) =~= s);
        while n > 0
            invariant
                n <= s.len(),
                s == self.last_connected@,
                forall|j: int| n <= j < s.len() ==> #[trigger] s[j].0 != *ip,
            decreases n,
        {
            if self.last_connected[n - 1].0 == *ip {
                proof {
                    lemma_map_of_last(s, *ip, n - 1);
                }
                return Some(self.last_connected[n - 1].1);
            }
            n = n - 1;
        }
        proof {
            lemma_map_of_absent(s, *ip);
        }
        None
    }

    /// Records that the phone at `address.ip` was connected at `address`.
    fn remember(&mut self, address: Endpoint)
        ensures
            final(self).connected() == old(self).connected().insert(address.ip, address),
            final(self).services == old(self).services,
    {
        let mut kept: Vec<(IpAddress, Endpoint)> = Vec::new();
        let mut i: usize = 0;
        let ghost s = self.last_connected@;
        assert(s.take(0) =~= Seq::<(IpAddress, Endpoint)>::empty());
        while i < self.last_connected.len()
            invariant
                i <= s.len(),
                s == self.last_connected@,
                kept@ == without_key(s.take(i as int), address.ip),
            decreases s.len() - i,
        {
            assert(s.take(i + 1).drop_last() =~= s.take(i as int));
            let e = self.last_connected[i];
            if e.0 != address.ip {
                kept.push(e);
            }
            i = i + 1;
        }
        assert(s.take(s.len() as int) =~= s);
        proof {
            lemma_without_key(s, address.ip);
        }
        let ghost w = kept@;
        kept.push((address.ip, address));
        assert(kept@.drop_last() =~= w);
        self.last_connected = kept;
        assert(self.connected() =~= map_of(s).remove(address.ip).insert(address.ip, address));
        assert(map_of(s).remove(address.ip).insert(address.ip, address) =~= map_of(s).insert(
            address.ip,
            address,
        ));
    }

    /// Takes in fresh advertisements seen at `now` and forgets the entries
    /// whose window has passed.
    pub fn update(&mut self, news: Vec<Service>, now: u64)
        ensures
            final(self).entries() == fresh(
                absorb(old(self).entries(), news@.map_values(|s: Service| s@), now),
                now,
            ),
            final(self).connected() == old(self).connected(),
    {
        let ghost nv = news@.map_values(|s: Service| s@);
        let mut i: usize = 0;
        assert(nv.take(0) =~= Seq::<ServiceView>::empty());
        while i < news.len()
            invariant
                i <= news@.len(),
                nv == news@.map_values(|s: Service| s@),
                self.entries() == absorb(old(self).entries(), nv.take(i as int), now),
                self.connected() == old(self).connected(),
            decreases news@.len() - i,
        {
            let s = news[i].duplicate();
            assert(s@ == nv[i as int]);
            let ghost before = self.entries();
            let mut rest: Vec<(Service, u64)> = Vec::new();
            let mut k: usize = 0;
            assert(before.take(0) =~= Seq::<(ServiceView, u64)>::empty());
            while k < self.services.len()
                invariant
                    k <= self.services@.len(),
                    before == entries_view(self.services@),
                    entries_view(rest@) == kept(before.take(k as int), s@),
                decreases self.services@.len() - k,
            {
                assert(before.take(k + 1).drop_last() =~= before.take(k as int));
                let e = &self.services[k];
                if !replaces_exec(&s, &e.0) {
                    let ghost rv = rest@;
                    rest.push((e.0.duplicate(), e.1));
                    assert(entries_view(rest@) =~= entries_view(rv).push(before[k as int]));
                }
                k = k + 1;
            }
            assert(before.take(before.len() as int) =~= before);
            let ghost kv = rest@;
            rest.push((s, now));
            assert(entries_view(rest@) =~= entries_view(kv).push((nv[i as int], now)));
            self.services = rest;
            assert(nv.take(i + 1).drop_last() =~= nv.take(i as int));
            i = i + 1;
        }
        assert(nv.take(news@.len() as int) =~= nv);
        let ghost absorbed = self.entries();
        let mut live: Vec<(Service, u64)> = Vec::new();
        let mut k: usize = 0;
        assert(absorbed.take(0) =~= Seq::<(ServiceView, u64)>::empty());
        while k < self.services.len()
            invariant
                k <= self.services@.len(),
                absorbed == entries_view(self.services@),
                entries_view(live@) == fresh(absorbed.take(k as int), now),
                self.connected() == old(self).connected(),
            decreases self.services@.len() - k,
        {
            assert(absorbed.take(k + 1).drop_last() =~= absorbed.take(k as int));
            let e = &self.services[k];
            let seen = e.1;
            let a: u64 = if now >= seen {
                now - seen
            } else {
                0
            };
            let limit: u64 = if e.0.pairing {
                12_000
            } else {
                120_000
            };
            if a < limit {
                let ghost lv = live@;
                live.push((e.0.duplicate(), e.1));
                assert(entries_view(live@) =~= entries_view(lv).push(absorbed[k as int]));
            }
            k = k + 1;
        }
        assert(absorbed.take(absorbed.len() as int) =~= absorbed);
        self.services = live;
    }
}

/// Whether `a` is the same text as `b`.
fn same_text(a: &String, b: &String) -> (r: bool)
    ensures
        r == (a@ == b@),
{
    let x = chars_of(a.as_str());
    let y = chars_of(b.as_str());
    same_chars(&x, &y)
}

/// Whether the advertisement `s` replaces the entry `old`.
fn replaces_exec(s: &Service, old: &Service) -> (r: bool)
    ensures
        r == replaces(s@, old@),
{
    old.pairing == s.pairing && (old.address.ip == s.address.ip || (old.name.as_str().unicode_len()
        > 0 && same_text(&old.name, &s.name)))
}

proof fn lemma_map_of_last(s: Seq<(IpAddress, Endpoint)>, k: IpAddress, i: int)
    requires
        0 <= i < s.len(),
        s[i].0 == k,
        forall|j: int| i < j < s.len() ==> #[trigger] s[j].0 != k,
    ensures
        map_of(s).contains_key(k),
        map_of(s)[k] == s[i].1,
    decreases s.len(),
{
    if i < s.len() - 1 {
        lemma_map_of_last(s.drop_last(), k, i);
    }
}

proof fn lemma_map_of_absent(s: Seq<(IpAddress, Endpoint)>, k: IpAddress)
    requires
        forall|j: int| 0 <= j < s.len() ==> #[trigger] s[j].0 != k,
    ensures
        !map_of(s).contains_key(k),
    decreases s.len(),
{
    if s.len() > 0 {
        lemma_map_of_absent(s.drop_last(), k);
    }
}

/// Whether some connection entry has exactly this address.
pub open spec fn offered_at(es: Seq<(ServiceView, u64)>, a: Endpoint) -> bool {
    exists|i: int| 0 <= i < es.len() && !es[i].0.pairing && #[trigger] es[i].0.address == a
}

/// A connected device keeps its `IP:port` among the candidates and as the
/// phone's last address: an established connection stays a candidate even
/// when multicast discovery fails.
pub open spec fn adopt_one(
    st: (Seq<(ServiceView, u64)>, Map<IpAddress, Endpoint>),
    d: DeviceView,
    now: u64,
) -> (Seq<(ServiceView, u64)>, Map<IpAddress, Endpoint>) {
    if d.state == "device"@ && endpoint_of(d.serial) is Ok {
        let a = endpoint_of(d.serial)->Ok_0;
        let es = if offered_at(st.0, a) {
            st.0
        } else {
            st.0.push((ServiceView { name: seq![], address: a, pairing: false }, now))
        };
        (es, st.1.insert(a.ip, a))
    } else {
        st
    }
}

/// `adopt_one` for each device in order.
pub open spec fn adopt(
    st: (Seq<(ServiceView, u64)>, Map<IpAddress, Endpoint>),
    ds: Seq<DeviceView>,
    now: u64,
) -> (Seq<(ServiceView, u64)>, Map<IpAddress, Endpoint>)
    decreases ds.len(),
{
    if ds.len() == 0 {
        st
    } else {
        adopt_one(adopt(st, ds.drop_last(), now), ds.last(), now)
    }
}

/// Whether a connected device is the phone behind the service.
pub open spec fn matched(s: ServiceView, ds: Seq<DeviceView>) -> bool {
    exists|j: int| 0 <= j < ds.len() && ds[j].state == "device"@ && #[trigger] is_same_phone(
        s,
        ds[j],
    )
}

/// Entries whose phone is connected are seen again at `now`.
pub open spec fn touch(es: Seq<(ServiceView, u64)>, ds: Seq<DeviceView>, now: u64) -> Seq<
    (ServiceView, u64),
> {
    Seq::new(
        es.len(),
        |i: int|
            if matched(es[i].0, ds) {
                (es[i].0, now)
            } else {
                es[i]
            },
    )
}

/// The last addresses after recording, in order, each connection service
/// whose phone is connected.
pub open spec fn touch_map(
    es: Seq<(ServiceView, u64)>,
    m: Map<IpAddress, Endpoint>,
    ds: Seq<DeviceView>,
    n: int,
) -> Map<IpAddress, Endpoint>
    decreases n,
{
    if n <= 0 {
        m
    } else {
        let m1 = touch_map(es, m, ds, n - 1);
        let s = es[n - 1].0;
        if matched(s, ds) && !s.pairing {
            m1.insert(s.address.ip, s.address)
        } else {
            m1
        }
    }
}

/// The devices as plain values.
pub open spec fn devices_of(v: Seq<Device>) -> Seq<DeviceView> {
    v.map_values(|d: Device| d@)
}

/// The screen is the same apart from its list of services.
pub open spec fn same_but_services(a: Screen, b: Screen) -> bool {
    &&& a.ready == b.ready && a.busy == b.busy && a.finished == b.finished
    &&& a.title == b.title && a.connection == b.connection && a.guide_hint == b.guide_hint
    &&& a.link_step == b.link_step && a.adb_help == b.adb_help && a.detail_pre == b.detail_pre
    &&& a.detail_link == b.detail_link && a.detail_post == b.detail_post && a.lead == b.lead
    &&& a.detail == b.detail && a.notice == b.notice && a.path == b.path && a.source == b.source
    &&& a.source_kind == b.source_kind && a.devices == b.devices && a.searched == b.searched
    &&& a.discovery_notice == b.discovery_notice && a.server_notice == b.server_notice
    &&& a.paired_ip == b.paired_ip
}

impl Discovery {
    /// Whether some connection entry has exactly this address.
    fn offers(&self, a: &Endpoint) -> (r: bool)
        ensures
            r == offered_at(self.entries(), *a),
    {
        let mut i: usize = 0;
        let ghost es = self.entries();
        while i < self.services.len()
            invariant
                i <= self.services@.len(),
                es == entries_view(self.services@),
                forall|j: int| 0 <= j < i ==> !(!es[j].0.pairing && #[trigger] es[j].0.address == *a),
            decreases self.services@.len() - i,
        {
            if !self.services[i].0.pairing && self.services[i].0.address == *a {
                assert(!es[i as int].0.pairing && es[i as int].0.address == *a);
                return true;
            }
            i = i + 1;
        }
        false
    }

    /// Publishes the services on the screen: connected phones are kept among
    /// the candidates and remembered, and entries whose phone is connected
    /// count as seen at `now`.
    pub fn show(&mut self, screen: &mut Screen, now: u64)
        ensures
            ({
                let ds = devices_of(old(screen).devices@);
                let (es1, m1) = adopt((old(self).entries(), old(self).connected()), ds, now);
                &&& final(self).entries() == touch(es1, ds, now)
                &&& final(self).connected() == touch_map(es1, m1, ds, es1.len() as int)
                &&& final(screen).services@.map_values(|s: Service| s@) == es1.map_values(
                    |e: (ServiceView, u64)| e.0,
                )
                &&& same_but_services(*old(screen), *final(screen))
            }),
    {
        let ghost ds = devices_of(screen.devices@);
        let ghost start = (self.entries(), self.connected());
        let mut i: usize = 0;
        assert(ds.take(0) =~= Seq::<DeviceView>::empty());
        while i < screen.devices.len()
            invariant
                i <= screen.devices@.len(),
                ds == devices_of(screen.devices@),
                (self.entries(), self.connected()) == adopt(start, ds.take(i as int), now),
            decreases screen.devices@.len() - i,
        {
            assert(ds.take(i + 1).drop_last() =~= ds.take(i as int));
            let d = &screen.devices[i];
            let st = chars_of(d.state.as_str());
            let dv = chars_of("device");
            if same_chars(&st, &dv) {
                match endpoint(d.serial.as_str()) {
                    Ok(a) => {
                        let seen = self.offers(&a);
                        if !seen {
                            let ghost before = self.services@;
                            self.services.push(
                                (Service { name: String::new(), address: a, pairing: false }, now),
                            );
                            assert(entries_view(self.services@) =~= entries_view(before).push(
                                (ServiceView { name: seq![], address: a, pairing: false }, now),
                            ));
                        }
                        self.remember(a);
                    },
                    Err(_) => {},
                }
            }
            i = i + 1;
        }
        assert(ds.take(screen.devices@.len() as int) =~= ds);
        let ghost es1 = self.entries();
        let ghost m1 = self.connected();
        let mut k: usize = 0;
        while k < self.services.len()
            invariant
                k <= self.services@.len(),
                es1.len() == self.services@.len(),
                ds == devices_of(screen.devices@),
                forall|j: int|
                    0 <= j < self.services@.len() ==> (#[trigger] self.entries()[j]).0 == es1[j].0,
                forall|j: int|
                    0 <= j < k ==> #[trigger] self.entries()[j] == touch(es1, ds, now)[j],
                forall|j: int| k <= j < self.services@.len() ==> #[trigger] self.entries()[j] == es1[j],
                self.connected() == touch_map(es1, m1, ds, k as int),
            decreases self.services@.len() - k,
        {
            let hit = self.connected_here(&self.services[k].0, &screen.devices);
            assert(self.entries()[k as int].0 == self.services@[k as int].0@);
            if hit {
                let svc = self.services[k].0.duplicate();
                let pairing = svc.pairing;
                let address = svc.address;
                let ghost before = self.services@;
                self.services.set(k, (svc, now));
                assert forall|j: int| 0 <= j < self.services@.len() && j != k implies
                    #[trigger] self.entries()[j] == entries_view(before)[j] by {
                    assert(self.services@[j] == before[j]);
                }
                assert(self.entries()[k as int] == (es1[k as int].0, now));
                if !pairing {
                    self.remember(address);
                }
            }
            assert(self.entries()[k as int] == touch(es1, ds, now)[k as int]);
            k = k + 1;
        }
        assert(self.entries() =~= touch(es1, ds, now));
        let mut out: Vec<Service> = Vec::new();
        let mut j: usize = 0;
        while j < self.services.len()
            invariant
                j <= self.services@.len(),
                es1.len() == self.services@.len(),
                forall|x: int|
                    0 <= x < self.services@.len() ==> (#[trigger] self.entries()[x]).0 == es1[x].0,
                out@.map_values(|s: Service| s@) == es1.map_values(|e: (ServiceView, u64)| e.0).take(
                    j as int,
                ),
            decreases self.services@.len() - j,
        {
            let ghost ov = out@;
            out.push(self.services[j].0.duplicate());
            assert(self.entries()[j as int].0 == self.services@[j as int].0@);
            assert(out@.map_values(|s: Service| s@) =~= ov.map_values(|s: Service| s@).push(
                es1[j as int].0,
            ));
            assert(out@.map_values(|s: Service| s@) =~= es1.map_values(|e: (ServiceView, u64)| e.0).take(
                j + 1,
            ));
            j = j + 1;
        }
        assert(es1.map_values(|e: (ServiceView, u64)| e.0).take(j as int) =~= es1.map_values(
            |e: (ServiceView, u64)| e.0,
        ));
        screen.services = out;
    }

    /// Whether a connected device is the phone behind `s`.
    fn connected_here(&self, s: &Service, devices: &Vec<Device>) -> (r: bool)
        ensures
            r == matched(s@, devices_of(devices@)),
    {
        let ghost ds = devices_of(devices@);
        let dv = chars_of("device");
        let mut j: usize = 0;
        while j < devices.len()
            invariant
                j <= devices@.len(),
                ds == devices_of(devices@),
                dv@ == "device"@,
                forall|x: int|
                    0 <= x < j ==> !(ds[x].state == "device"@ && #[trigger] is_same_phone(
                        s@,
                        ds[x],
                    )),
            decreases devices@.len() - j,
        {
            let st = chars_of(devices[j].state.as_str());
            if same_chars(&st, &dv) && same_phone(s, &devices[j]) {
                assert(ds[j as int] == devices@[j as int]@);
                return true;
            }
            assert(ds[j as int] == devices@[j as int]@);
            j = j + 1;
        }
        false
    }
}

/// No connection entry is for `ip`.
pub open spec fn none_at(es: Seq<(ServiceView, u64)>, ip: IpAddress) -> bool {
    forall|i: int| 0 <= i < es.len() ==> (#[trigger] es[i]).0.pairing || es[i].0.address.ip != ip
}

proof fn lemma_kept_none_at(es: Seq<(ServiceView, u64)>, s: ServiceView)
    requires
        !s.pairing,
    ensures
        none_at(kept(es, s), s.address.ip),
    decreases es.len(),
{
    if es.len() > 0 {
        lemma_kept_none_at(es.drop_last(), s);
        let k0 = kept(es.drop_last(), s);
        if !replaces(s, es.last().0) {
            assert forall|i: int| 0 <= i < k0.push(es.last()).len() implies (#[trigger] k0.push(
                es.last(),
            )[i]).0.pairing || k0.push(es.last())[i].0.address.ip != s.address.ip by {
                if i < k0.len() {
                    assert(k0.push(es.last())[i] == k0[i]);
                }
            }
        }
    }
}

proof fn lemma_fresh_none_at(es: Seq<(ServiceView, u64)>, now: u64, ip: IpAddress)
    requires
        none_at(es, ip),
    ensures
        none_at(fresh(es, now), ip),
    decreases es.len(),
{
    if es.len() > 0 {
        assert(none_at(es.drop_last(), ip)) by {
            assert forall|i: int| 0 <= i < es.drop_last().len() implies (#[trigger] es.drop_last()[
                i]).0.pairing || es.drop_last()[i].0.address.ip != ip by {
                assert(es.drop_last()[i] == es[i]);
            }
        }
        lemma_fresh_none_at(es.drop_last(), now, ip);
        let f0 = fresh(es.drop_last(), now);
        assert(es.last() == es[es.len() - 1]);
        assert forall|i: int| 0 <= i < f0.push(es.last()).len() implies (#[trigger] f0.push(
            es.last(),
        )[i]).0.pairing || f0.push(es.last())[i].0.address.ip != ip by {
            if i < f0.len() {
                assert(f0.push(es.last())[i] == f0[i]);
            }
        }
    }
}

proof fn lemma_no_candidates(es: Seq<(ServiceView, u64)>, ip: IpAddress)
    requires
        none_at(es, ip),
    ensures
        candidates(es, ip) == Seq::<Endpoint>::empty(),
    decreases es.len(),
{
    if es.len() > 0 {
        assert(none_at(es.drop_last(), ip)) by {
            assert forall|i: int| 0 <= i < es.drop_last().len() implies (#[trigger] es.drop_last()[
                i]).0.pairing || es.drop_last()[i].0.address.ip != ip by {
                assert(es.drop_last()[i] == es[i]);
            }
        }
        assert(es.last() == es[es.len() - 1]);
        lemma_no_candidates(es.drop_last(), ip);
    }
}

/// A fresh advertisement replaces a phone's previous port: once a connection
/// service for an IP has been taken in, that IP is reached at the advertised
/// address, whatever was known before.
pub proof fn lemma_fresh_advert_replaces(
    es: Seq<(ServiceView, u64)>,
    m: Map<IpAddress, Endpoint>,
    s: ServiceView,
    now: u64,
)
    requires
        !s.pairing,
    ensures
        reach(fresh(absorb(es, seq![s], now), now), m, s.address.ip) == Some(s.address),
{
    let k = kept(es, s);
    assert(seq![s].drop_last() =~= Seq::<ServiceView>::empty());
    assert(seq![s].last() == s);
    assert(absorb(es, Seq::<ServiceView>::empty(), now) == es);
    assert(absorb(es, seq![s], now) == k.push((s, now)));
    assert(k.push((s, now)).drop_last() =~= k);
    lemma_kept_none_at(es, s);
    lemma_fresh_none_at(k, now, s.address.ip);
    let f = fresh(k, now);
    assert(fresh(k.push((s, now)), now) == f.push((s, now)));
    assert(f.push((s, now)).drop_last() =~= f);
    lemma_no_candidates(f, s.address.ip);
    assert(candidates(f.push((s, now)), s.address.ip) =~= seq![s.address]);
}

/// A pairing advertisement leaves the connection candidates as they were.
proof fn lemma_kept_pairing_candidates(es: Seq<(ServiceView, u64)>, s: ServiceView, ip: IpAddress)
    requires
        s.pairing,
    ensures
        candidates(kept(es, s), ip) == candidates(es, ip),
    decreases es.len(),
{
    if es.len() > 0 {
        lemma_kept_pairing_candidates(es.drop_last(), s, ip);
        if !replaces(s, es.last().0) {
            assert(kept(es, s).drop_last() =~= kept(es.drop_last(), s));
        }
    }
}

/// Pairing and connection ports stay separate: taking in a pairing
/// advertisement never changes the address a phone is connected at.
pub proof fn lemma_pairing_advert_keeps_connection_address(
    es: Seq<(ServiceView, u64)>,
    m: Map<IpAddress, Endpoint>,
    s: ServiceView,
    now: u64,
    ip: IpAddress,
)
    requires
        s.pairing,
    ensures
        reach(absorb(es, seq![s], now), m, ip) == reach(es, m, ip),
{
    assert(seq![s].drop_last() =~= Seq::<ServiceView>::empty());
    assert(seq![s].last() == s);
    assert(absorb(es, Seq::<ServiceView>::empty(), now) == es);
    let k = kept(es, s);
    assert(absorb(es, seq![s], now) == k.push((s, now)));
    assert(k.push((s, now)).drop_last() =~= k);
    lemma_kept_pairing_candidates(es, s, ip);
    assert(candidates(k.push((s, now)), ip) == candidates(k, ip));
}

/// A phone once seen connected at `IP:port` is remembered at that IP: after
/// the devices are shown, the address map holds every connected device's IP.
pub proof fn lemma_connected_phone_remembered(
    st: (Seq<(ServiceView, u64)>, Map<IpAddress, Endpoint>),
    ds: Seq<DeviceView>,
    now: u64,
    i: int,
)
    requires
        0 <= i < ds.len(),
        ds[i].state == "device"@,
        endpoint_of(ds[i].serial) is Ok,
    ensures
        ({
            let (es1, m1) = adopt(st, ds, now);
            touch_map(es1, m1, ds, es1.len() as int).contains_key(
                (endpoint_of(ds[i].serial)->Ok_0).ip,
            )
        }),
    decreases ds.len(),
{
    let ip = (endpoint_of(ds[i].serial)->Ok_0).ip;
    lemma_adopt_holds(st, ds, now, i);
    let (es1, m1) = adopt(st, ds, now);
    lemma_touch_map_grows(es1, m1, ds, es1.len() as int, ip);
}

proof fn lemma_adopt_holds(
    st: (Seq<(ServiceView, u64)>, Map<IpAddress, Endpoint>),
    ds: Seq<DeviceView>,
    now: u64,
    i: int,
)
    requires
        0 <= i < ds.len(),
        ds[i].state == "device"@,
        endpoint_of(ds[i].serial) is Ok,
    ensures
        adopt(st, ds, now).1.contains_key((endpoint_of(ds[i].serial)->Ok_0).ip),
    decreases ds.len(),
{
    if i < ds.len() - 1 {
        lemma_adopt_holds(st, ds.drop_last(), now, i);
        assert(ds.drop_last()[i] == ds[i]);
    } else {
        assert(ds.last() == ds[i]);
    }
}

proof fn lemma_touch_map_grows(
    es: Seq<(ServiceView, u64)>,
    m: Map<IpAddress, Endpoint>,
    ds: Seq<DeviceView>,
    n: int,
    ip: IpAddress,
)
    requires
        m.contains_key(ip),
    ensures
        touch_map(es, m, ds, n).contains_key(ip),
    decreases n,
{
    if n > 0 {
        lemma_touch_map_grows(es, m, ds, n - 1, ip);
    }
}

// ---------------------------------------------------------------------------
// Connecting after pairing
// ---------------------------------------------------------------------------

/// A pairing that succeeded and whose phone is not connected yet.
pub struct PendingPair {
    /// The phone's IP.
    pub ip: IpAddress,
    /// When pairing succeeded, in milliseconds.
    pub started: u64,
    /// The connection addresses tried so far.
    pub attempted: Vec<Endpoint>,
}

/// How long after pairing a connection is still attempted, in milliseconds.
pub const PAIR_PATIENCE: u64 = 30_000;

/// Whether the freshly paired phone at `ip` is connected: a device in state
/// `device` whose serial is an address at that IP, or which is the phone
/// behind a connection service at that IP.
pub open spec fn phone_connected(screen: Screen, ip: IpAddress) -> bool {
    exists|i: int|
        0 <= i < screen.devices@.len() && #[trigger] screen.devices@[i].state@ == "device"@ && ((
        endpoint_of(screen.devices@[i].serial@) matches Ok(a) && a.ip == ip) || exists|j: int|
            0 <= j < screen.services@.len() && !screen.services@[j].pairing
                && screen.services@[j].address.ip == ip && #[trigger] is_same_phone(
                screen.services@[j]@,
                screen.devices@[i]@,
            ))
}

/// What to do next for a pairing.
pub enum PairStep {
    /// Nothing is left to do now.
    Settled,
    /// Connect to this address, then settle or let the pairing expire.
    Attempt(Endpoint),
    /// Wait for discovery; the pairing may expire.
    Waiting,
}

/// Whether the list holds this address.
pub open spec fn tried(v: Seq<Endpoint>, a: Endpoint) -> bool {
    exists|i: int| 0 <= i < v.len() && v[i] == a
}

fn ip_connected(screen: &Screen, ip: &IpAddress) -> (r: bool)
    ensures
        r == phone_connected(*screen, *ip),
{
    let dv = chars_of("device");
    let mut i: usize = 0;
    while i < screen.devices.len()
        invariant
            i <= screen.devices@.len(),
            dv@ == "device"@,
            forall|x: int|
                0 <= x < i ==> !(#[trigger] screen.devices@[x].state@ == "device"@ && ((endpoint_of(
                    screen.devices@[x].serial@,
                ) matches Ok(a) && a.ip == *ip) || exists|j: int|
                    0 <= j < screen.services@.len() && !screen.services@[j].pairing
                        && screen.services@[j].address.ip == *ip && #[trigger] is_same_phone(
                        screen.services@[j]@,
                        screen.devices@[x]@,
                    ))),
        decreases screen.devices@.len() - i,
    {
        let d = &screen.devices[i];
        let st = chars_of(d.state.as_str());
        if same_chars(&st, &dv) {
            let by_address = match endpoint(d.serial.as_str()) {
                Ok(a) => a.ip == *ip,
                Err(_) => false,
            };
            if by_address {
                return true;
            }
            let mut j: usize = 0;
            while j < screen.services.len()
                invariant
                    j <= screen.services@.len(),
                    i < screen.devices@.len(),
                    screen.devices@[i as int].state@ == "device"@,
                    forall|y: int|
                        0 <= y < j ==> !(!screen.services@[y].pairing && screen.services@[y].address.ip
                            == *ip && #[trigger] is_same_phone(
                            screen.services@[y]@,
                            screen.devices@[i as int]@,
                        )),
                decreases screen.services@.len() - j,
            {
                let s = &screen.services[j];
                if !s.pairing && s.address.ip == *ip && same_phone(s, &screen.devices[i]) {
                    assert(is_same_phone(screen.services@[j as int]@, screen.devices@[i as int]@));
                    assert(phone_connected(*screen, *ip));
                    return true;
                }
                j = j + 1;
            }
        }
        i = i + 1;
    }
    false
}

/// The IP that `paired_ip` names, if it names one.
pub open spec fn paired_at(screen: Screen) -> Option<IpAddress> {
    crate::address::parse_ip(screen.paired_ip@)
}

/// One step of following a pairing, from the screen and pending pairing
/// before (`s0`, `p0`) to those after (`s1`, `p1`) with result `r`, given the
/// discovered entries `es` and remembered addresses `m`: nothing when no
/// paired IP is recorded; done (the record cleared) when the phone is
/// connected; otherwise, while a pairing is pending, an attempt at the
/// phone's connection address when one is known and not tried yet (it is
/// then noted as tried), or waiting.
pub open spec fn pair_step(
    s0: Screen,
    p0: Option<PendingPair>,
    es: Seq<(ServiceView, u64)>,
    m: Map<IpAddress, Endpoint>,
    s1: Screen,
    p1: Option<PendingPair>,
    r: PairStep,
) -> bool {
    match paired_at(s0) {
        None => r is Settled && s1 == s0 && p1 == p0,
        Some(ip) => if phone_connected(s0, ip) {
            &&& r is Settled
            &&& p1 is None
            &&& s1.paired_ip@.len() == 0
            &&& same_data(s0, Screen { paired_ip: s0.paired_ip, ..s1 })
        } else {
            &&& s1 == s0
            &&& match p0 {
                None => r is Settled && p1 is None,
                Some(p) => p1 matches Some(q) && q.ip == p.ip && q.started == p.started && match reach(
                    es,
                    m,
                    p.ip,
                ) {
                    Some(a) => if !tried(p.attempted@, a) {
                        r == PairStep::Attempt(a) && q.attempted@ == p.attempted@.push(a)
                    } else {
                        r is Waiting && q.attempted@ == p.attempted@
                    },
                    None => r is Waiting && q.attempted@ == p.attempted@,
                },
            }
        },
    }
}

/// The next step for a pairing (see `pair_step`).
pub fn finish_pair(screen: &mut Screen, pending: &mut Option<PendingPair>, discovery: &Discovery) -> (r:
    PairStep)
    ensures
        pair_step(
            *old(screen),
            *old(pending),
            discovery.entries(),
            discovery.connected(),
            *final(screen),
            *final(pending),
            r,
        ),
{
    let ip = match crate::address::parse_ip_text(screen.paired_ip.as_str()) {
        Some(ip) => ip,
        None => {
            return PairStep::Settled;
        },
    };
    if ip_connected(screen, &ip) {
        screen.paired_ip = String::new();
        *pending = None;
        return PairStep::Settled;
    }
    match pending {
        None => PairStep::Settled,
        Some(p) => {
            match discovery.connection_address(&p.ip) {
                Some(a) => {
                    let mut seen = false;
                    let mut i: usize = 0;
                    while i < p.attempted.len()
                        invariant
                            i <= p.attempted@.len(),
                            seen == exists|j: int| 0 <= j < i && p.attempted@[j] == a,
                        decreases p.attempted@.len() - i,
                    {
                        if p.attempted[i] == a {
                            seen = true;
                        }
                        i = i + 1;
                    }
                    if !seen {
                        p.attempted.push(a);
                        PairStep::Attempt(a)
                    } else {
                        PairStep::Waiting
                    }
                },
                None => PairStep::Waiting,
            }
        },
    }
}

/// After an attempt: when the phone at the paired IP is connected, clears the
/// record and the pending pairing and gives `true`.
pub fn settle(screen: &mut Screen, pending: &mut Option<PendingPair>) -> (r: bool)
    ensures
        r == (paired_at(*old(screen)) matches Some(ip) && phone_connected(*old(screen), ip)),
        r ==> (*final(pending)) is None && final(screen).paired_ip@.len() == 0 && same_data(
            *old(screen),
            Screen { paired_ip: old(screen).paired_ip, ..*final(screen) },
        ),
        !r ==> *final(screen) == *old(screen) && *final(pending) == *old(pending),
{
    let ip = match crate::address::parse_ip_text(screen.paired_ip.as_str()) {
        Some(ip) => ip,
        None => {
            return false;
        },
    };
    if ip_connected(screen, &ip) {
        screen.paired_ip = String::new();
        *pending = None;
        true
    } else {
        false
    }
}

/// Gives up on a pending pairing once its patience has run out at `now`.
pub fn expire(pending: &mut Option<PendingPair>, now: u64)
    ensures
        match *old(pending) {
            Some(p) => if now >= p.started && now - p.started >= PAIR_PATIENCE {
                (*final(pending)) is None
            } else {
                *final(pending) == *old(pending)
            },
            None => (*final(pending)) is None,
        },
{
    let over = match pending {
        Some(p) => now >= p.started && now - p.started >= PAIR_PATIENCE,
        None => false,
    };
    if over {
        *pending = None;
    }
}


// ---------------------------------------------------------------------------
// The background loop's own state
// ---------------------------------------------------------------------------

/// How long after a search the next background search is due, in
/// milliseconds; also how far back a search is dated to make one due at once.
pub const SEARCH_INTERVAL: u64 = 3000;

/// How long after a broken or failed device-list subscription it is opened
/// again, in milliseconds.
pub const RETRY_INTERVAL: u64 = 5000;

/// What the screen says while the device-list subscription is reopened.
pub const RECHECKING: &'static str = "{} 연결 상태를 다시 확인하고 있어요.";

/// `now` moved back by `d`, stopping at zero.
pub open spec fn before(now: u64, d: u64) -> u64 {
    if now >= d {
        (now - d) as u64
    } else {
        0
    }
}

/// The decisions of the background loop besides the screen: whether the
/// wireless page is open, whether addresses are typed by hand, when the last
/// search ran (in milliseconds) and the pairing being followed.
pub struct Session {
    pub wireless_page: bool,
    pub manual_addresses: bool,
    pub searched_at: u64,
    pub pending: Option<PendingPair>,
    /// When the device-list subscription was last opened or tried.
    pub retried_at: u64,
}

/// A pairing at `ip` that started at `now` and has tried no address yet.
pub open spec fn fresh_pair(p: Option<PendingPair>, ip: IpAddress, now: u64) -> bool {
    p matches Some(q) && q.ip == ip && q.started == now && q.attempted@.len() == 0
}

impl Session {
    /// The state at start: no page open, discovery on, nothing pending.
    pub fn new() -> (r: Session)
        ensures
            !r.wireless_page && !r.manual_addresses && r.searched_at == 0 && r.pending is None
                && r.retried_at == 0,
    {
        Session {
            wireless_page: false,
            manual_addresses: false,
            searched_at: 0,
            pending: None,
            retried_at: 0,
        }
    }

    /// The wireless page opened (`active`) or closed at `now`; an opened page
    /// is searched at once.
    pub fn wireless(&mut self, active: bool, now: u64)
        ensures
            final(self).wireless_page == active,
            final(self).retried_at == old(self).retried_at,
            final(self).searched_at == if active {
                before(now, SEARCH_INTERVAL)
            } else {
                old(self).searched_at
            },
            final(self).manual_addresses == old(self).manual_addresses,
            final(self).pending == old(self).pending,
    {
        self.wireless_page = active;
        if active {
            self.searched_at = now.saturating_sub(SEARCH_INTERVAL);
        }
    }

    /// Typing addresses by hand switched on or off at `now`. Either way the
    /// pairing being followed is dropped; switching it off searches at once
    /// and follows again the phone whose IP the screen holds as paired.
    pub fn manual(&mut self, manual: bool, paired_ip: &str, now: u64)
        ensures
            final(self).manual_addresses == manual,
            final(self).wireless_page == old(self).wireless_page,
            final(self).retried_at == old(self).retried_at,
            manual ==> final(self).pending is None && final(self).searched_at == old(
                self,
            ).searched_at,
            !manual ==> final(self).searched_at == before(now, SEARCH_INTERVAL) && match crate::address::parse_ip(
                paired_ip@,
            ) {
                Some(ip) => fresh_pair(final(self).pending, ip, now),
                None => final(self).pending is None,
            },
    {
        self.manual_addresses = manual;
        self.pending = None;
        if !manual {
            self.searched_at = now.saturating_sub(SEARCH_INTERVAL);
            match crate::address::parse_ip_text(paired_ip) {
                Some(ip) => {
                    self.pending = Some(PendingPair { ip, started: now, attempted: Vec::new() });
                },
                None => {},
            }
        }
    }

    /// Whether an action is ignored: a search while addresses are typed by
    /// hand.
    pub fn ignores(&self, action: &Action) -> (r: bool)
        ensures
            r == (self.manual_addresses && *action is Discover),
    {
        self.manual_addresses && match action {
            Action::Discover => true,
            _ => false,
        }
    }

    /// Whether a background search is due at `now`: only with discovery on,
    /// while the wireless page is open or a pairing is followed, and once the
    /// interval since the last search has passed.
    pub fn search_due(&self, now: u64) -> (r: bool)
        ensures
            r == (!self.manual_addresses && (self.wireless_page || self.pending is Some) && before(
                now,
                self.searched_at,
            ) >= SEARCH_INTERVAL),
    {
        !self.manual_addresses && (self.wireless_page || self.pending.is_some())
            && now.saturating_sub(self.searched_at) >= SEARCH_INTERVAL
    }

    /// A search ran at `now`.
    pub fn searched(&mut self, now: u64)
        ensures
            final(self).searched_at == now,
            final(self).wireless_page == old(self).wireless_page,
            final(self).retried_at == old(self).retried_at,
            final(self).manual_addresses == old(self).manual_addresses,
            final(self).pending == old(self).pending,
    {
        self.searched_at = now;
    }

    /// Pairing with `address` succeeded at `now`: the phone's IP is recorded
    /// on the screen and followed until the phone is connected.
    pub fn paired(&mut self, screen: &mut Screen, address: &str, now: u64)
        ensures
            final(self).wireless_page == old(self).wireless_page,
            final(self).retried_at == old(self).retried_at,
            final(self).manual_addresses == old(self).manual_addresses,
            final(self).searched_at == old(self).searched_at,
            match endpoint_of(address@) {
                Ok(a) => {
                    &&& final(screen).paired_ip@ == crate::address::ip_text(a.ip)
                    &&& *final(screen) == (Screen { paired_ip: final(screen).paired_ip, ..*old(screen) })
                    &&& fresh_pair(final(self).pending, a.ip, now)
                },
                Err(_) => *final(screen) == *old(screen) && final(self).pending == old(self).pending,
            },
    {
        match endpoint(address) {
            Ok(a) => {
                screen.paired_ip = crate::address::ip_string(&a.ip);
                self.pending = Some(PendingPair { ip: a.ip, started: now, attempted: Vec::new() });
            },
            Err(_) => {},
        }
    }

    /// The first follow-up of a pairing ended at `now`: with addresses typed
    /// by hand no background attempts follow; the next search is due at once.
    pub fn after_pair(&mut self, now: u64)
        ensures
            final(self).searched_at == before(now, SEARCH_INTERVAL),
            old(self).manual_addresses ==> final(self).pending is None,
            !old(self).manual_addresses ==> final(self).pending == old(self).pending,
            final(self).wireless_page == old(self).wireless_page,
            final(self).retried_at == old(self).retried_at,
            final(self).manual_addresses == old(self).manual_addresses,
    {
        if self.manual_addresses {
            self.pending = None;
        }
        self.searched_at = now.saturating_sub(SEARCH_INTERVAL);
    }

    /// Connecting to `address` succeeded: when it is the phone just paired,
    /// the pairing is complete and no longer followed.
    pub fn connected(&mut self, screen: &mut Screen, address: &str)
        ensures
            final(self).wireless_page == old(self).wireless_page,
            final(self).retried_at == old(self).retried_at,
            final(self).manual_addresses == old(self).manual_addresses,
            final(self).searched_at == old(self).searched_at,
            if (endpoint_of(address@) matches Ok(a) && crate::address::ip_text(a.ip)
                == old(screen).paired_ip@) {
                &&& final(screen).paired_ip@.len() == 0
                &&& *final(screen) == (Screen { paired_ip: final(screen).paired_ip, ..*old(screen) })
                &&& final(self).pending is None
            } else {
                *final(screen) == *old(screen) && final(self).pending == old(self).pending
            },
    {
        match endpoint(address) {
            Ok(a) => {
                let shown = crate::address::ip_string(&a.ip);
                let x = chars_of(shown.as_str());
                let y = chars_of(screen.paired_ip.as_str());
                if same_chars(&x, &y) {
                    screen.paired_ip = String::new();
                    self.pending = None;
                }
            },
            Err(_) => {},
        }
    }

    /// Whether opening the device-list subscription again is due at `now`:
    /// once `RETRY_INTERVAL` has passed since it was last opened or tried.
    pub fn retry_due(&self, now: u64) -> (r: bool)
        ensures
            r == (before(now, self.retried_at) >= RETRY_INTERVAL),
    {
        now.saturating_sub(self.retried_at) >= RETRY_INTERVAL
    }

    /// The subscription was opened or tried at `now`.
    pub fn retried(&mut self, now: u64)
        ensures
            final(self).retried_at == now,
            final(self).wireless_page == old(self).wireless_page,
            final(self).manual_addresses == old(self).manual_addresses,
            final(self).searched_at == old(self).searched_at,
            final(self).pending == old(self).pending,
    {
        self.retried_at = now;
    }

    /// The device-list subscription broke at `now` with `error`: the screen
    /// says the connection state is being checked again (the phones are not
    /// taken as disconnected), and reopening is tried after the interval.
    pub fn subscription_lost(&mut self, screen: &mut Screen, s: &I18n, error: &Notice, now: u64)
        ensures
            final(self).retried_at == now,
            final(self).wireless_page == old(self).wireless_page,
            final(self).manual_addresses == old(self).manual_addresses,
            final(self).searched_at == old(self).searched_at,
            final(self).pending == old(self).pending,
            final(screen).server_notice@ == fill(
                translate(*s, RECHECKING@),
                seq![notice_text(*s, *error)],
            ),
            *final(screen) == (Screen { server_notice: final(screen).server_notice, ..*old(screen) }),
    {
        let m = message(s, error);
        let args: Vec<&str> = vec![m.as_str()];
        assert(args@.map_values(|a: &str| a@) =~= seq![notice_text(*s, *error)]);
        screen.server_notice = tf(s, RECHECKING, args.as_slice());
        self.retried_at = now;
    }

    /// After an action at `now`, with no subscription open: the screen is
    /// ready exactly when a tool is there (`has_tool`); without one, its path,
    /// origin and devices are cleared. Reopening the subscription counts as
    /// tried now.
    pub fn settle_tool(&mut self, screen: &mut Screen, has_tool: bool, now: u64)
        ensures
            final(self).retried_at == now,
            final(self).wireless_page == old(self).wireless_page,
            final(self).manual_addresses == old(self).manual_addresses,
            final(self).searched_at == old(self).searched_at,
            final(self).pending == old(self).pending,
            final(screen).ready == has_tool,
            has_tool ==> *final(screen) == (Screen { ready: true, ..*old(screen) }),
            !has_tool ==> *final(screen) == (Screen {
                ready: false,
                path: final(screen).path,
                source: final(screen).source,
                source_kind: 0,
                devices: final(screen).devices,
                ..*old(screen)
            }) && final(screen).path@.len() == 0 && final(screen).source@.len() == 0
                && final(screen).devices@.len() == 0,
    {
        screen.ready = has_tool;
        if !has_tool {
            screen.path = String::new();
            screen.source = String::new();
            screen.source_kind = 0;
            screen.devices = Vec::new();
        }
        self.retried_at = now;
    }
}

/// Checking the status after an action failed with `failure`: the devices
/// are no longer known, and the failure follows the action's own result in
/// the notice.
pub fn status_failed(screen: &mut Screen, failure: String)
    ensures
        final(screen).devices@.len() == 0,
        final(screen).notice@ == if old(screen).notice@.len() == 0 {
            failure@
        } else {
            old(screen).notice@ + " "@ + failure@
        },
        *final(screen) == (Screen {
            devices: final(screen).devices,
            notice: final(screen).notice,
            ..*old(screen)
        }),
{
    let done = screen.notice.clone();
    screen.notice = joined(done, failure);
    screen.devices = Vec::new();
}

/// The notice after an action whose own result is `done` and after which
/// checking the tool's status failed with `failure`: both, in that order.
pub fn joined(done: String, failure: String) -> (r: String)
    ensures
        r@ == if done@.len() == 0 {
            failure@
        } else {
            done@ + " "@ + failure@
        },
{
    if done.as_str().unicode_len() == 0 {
        failure
    } else {
        let mut r = done;
        push_str(&mut r, " ");
        push_str(&mut r, failure.as_str());
        r
    }
}


/// An address attempted for a pairing is noted as tried.
pub proof fn lemma_attempt_is_noted(
    s0: Screen,
    p0: Option<PendingPair>,
    es: Seq<(ServiceView, u64)>,
    m: Map<IpAddress, Endpoint>,
    s1: Screen,
    p1: Option<PendingPair>,
    a: Endpoint,
)
    requires
        pair_step(s0, p0, es, m, s1, p1, PairStep::Attempt(a)),
    ensures
        p1 matches Some(q) && tried(q.attempted@, a),
{
    let q = p1->Some_0;
    assert(q.attempted@[q.attempted@.len() - 1] == a);
}

/// Each connection address is tried at most once per pairing: a step never
/// attempts an address already tried, and what was tried stays noted, whatever
/// discovery has found meanwhile.
pub proof fn lemma_tried_address_not_retried(
    s0: Screen,
    p0: Option<PendingPair>,
    es: Seq<(ServiceView, u64)>,
    m: Map<IpAddress, Endpoint>,
    s1: Screen,
    p1: Option<PendingPair>,
    r: PairStep,
    a: Endpoint,
)
    requires
        pair_step(s0, p0, es, m, s1, p1, r),
        p0 matches Some(p) && tried(p.attempted@, a),
    ensures
        r != PairStep::Attempt(a),
        p1 matches Some(q) ==> tried(q.attempted@, a),
{
    let p = p0->Some_0;
    let i = choose|i: int| 0 <= i < p.attempted@.len() && p.attempted@[i] == a;
    if p1 is Some {
        let q = p1->Some_0;
        assert(q.attempted@[i] == a);
    }
}


/// One piece of work that the background loop performs, in the order a plan
/// gives.
#[derive(Clone, Copy, Debug, PartialEq, Eq, Structural)]
pub enum Step {
    /// List the devices and show them (the previous list stays on failure).
    ListDevices,
    /// Search for wireless services and take them in (nothing on failure).
    Discover,
    /// Show the services found on the screen.
    ShowServices,
    /// Follow up the pairing (`finish_pair`, then connecting or waiting).
    FollowPair,
    /// End the pairing's first follow-up (`Session::after_pair`).
    AfterPair,
    /// Settle the screen on whether a tool is there (`Session::settle_tool`).
    SettleTool,
    /// Open the device-list subscription, or report why not
    /// (`status_failed`).
    OpenStatus,
}

/// The work after a pairing succeeded: list the devices, search again unless
/// addresses are typed by hand, show the services, follow the pairing up, and
/// end its first follow-up.
pub fn pair_steps(manual: bool) -> (r: Vec<Step>)
    ensures
        r@ == if manual {
            seq![Step::ListDevices, Step::ShowServices, Step::FollowPair, Step::AfterPair]
        } else {
            seq![Step::ListDevices, Step::Discover, Step::ShowServices, Step::FollowPair, Step::AfterPair]
        },
{
    let mut r: Vec<Step> = Vec::new();
    r.push(Step::ListDevices);
    if !manual {
        r.push(Step::Discover);
    }
    r.push(Step::ShowServices);
    r.push(Step::FollowPair);
    r.push(Step::AfterPair);
    r
}

/// The work after every action: list the devices again when a tool is
/// there; when no subscription is open, settle the screen on the tool and,
/// with a tool, open the subscription.
pub fn finish_steps(has_tool: bool, subscribed: bool) -> (r: Vec<Step>)
    ensures
        r@ == (if has_tool {
            seq![Step::ListDevices]
        } else {
            seq![]
        }) + (if subscribed {
            seq![]
        } else if has_tool {
            seq![Step::SettleTool, Step::OpenStatus]
        } else {
            seq![Step::SettleTool]
        }),
{
    let mut r: Vec<Step> = Vec::new();
    if has_tool {
        r.push(Step::ListDevices);
    }
    if !subscribed {
        r.push(Step::SettleTool);
        if has_tool {
            r.push(Step::OpenStatus);
        }
    }
    proof {
        let a: Seq<Step> = if has_tool { seq![Step::ListDevices] } else { seq![] };
        let b: Seq<Step> = if subscribed {
            seq![]
        } else if has_tool {
            seq![Step::SettleTool, Step::OpenStatus]
        } else {
            seq![Step::SettleTool]
        };
        assert(r@ =~= a + b);
    }
    r
}


/// With a tool ready, no phone connected and none waiting for approval, a
/// phone that stopped responding is reported as waiting: the status says so,
/// the detail asks to unlock and reconnect, the USB guide opens at its fourth
/// step, and the dot shows that action is needed.
pub proof fn lemma_offline_phone_is_reported_waiting(v: Screen, s: I18n)
    requires
        described(v, s),
        v.ready,
        !has_state(v.devices@, "device"@),
        !has_state(v.devices@, "unauthorized"@),
        has_state(v.devices@, "offline"@),
    ensures
        v.title@ == translate(s, "휴대폰이 응답을 기다리고 있어요"@),
        v.detail@ == translate(
            s,
            "잠금을 풀고 케이블을 다시 연결해 주세요. 무선이면 휴대폰의 무선 디버깅이 켜져 있는지 확인해 주세요."@,
        ),
        v.guide_hint == 3,
        v.link_step == -1,
        !v.adb_help,
        v.connection == 2,
{
    let i = choose|i: int| 0 <= i < v.devices@.len() && #[trigger] v.devices@[i].state@ == "offline"@;
    assert(v.devices@.len() > 0);
}


/// Which status the screen shows, by situation, in order of precedence: no
/// tool asks to prepare one (grey dot); a connected phone wins over all else
/// and offers help with ADB (green unless the server needs attention); then a
/// phone waiting for approval opens the guide at its third step; then a
/// phone that stopped responding at its fourth; then a phone in another mode
/// such as recovery; and no device asks to connect one (red dot).
pub proof fn lemma_status_by_situation(v: Screen, s: I18n)
    requires
        described(v, s),
    ensures
        !v.ready ==> v.title@ == translate(s, "처음 한 번만 준비해 주세요"@) && v.connection == 0
            && v.guide_hint == -1,
        v.ready && has_state(v.devices@, "device"@) ==> v.title@ == translate(s, "연결됐어요"@)
            && v.adb_help && v.guide_hint == -1 && v.connection == (if v.server_notice@.len()
            > 0 { 2int } else { 3int }),
        v.ready && !has_state(v.devices@, "device"@) && has_state(v.devices@, "unauthorized"@)
            ==> v.title@ == translate(s, "휴대폰에서 ‘허용’을 눌러 주세요"@) && v.guide_hint == 2
            && v.link_step == 0 && v.connection == 2,
        v.ready && !has_state(v.devices@, "device"@) && !has_state(v.devices@, "unauthorized"@)
            && !has_state(v.devices@, "offline"@) && v.devices@.len() > 0 ==> v.title@
            == translate(s, "휴대폰이 일반 실행 상태가 아니에요"@) && v.guide_hint == -1 && v.connection
            == 2,
        v.ready && v.devices@.len() == 0 ==> v.title@ == translate(s, "휴대폰을 연결해 주세요"@)
            && v.guide_hint == -1 && v.connection == (if v.server_notice@.len() > 0 { 2int } else { 1int }),
{
    if v.ready && has_state(v.devices@, "unauthorized"@) {
        let i = choose|i: int| 0 <= i < v.devices@.len() && #[trigger] v.devices@[i].state@ == "unauthorized"@;
        assert(v.devices@.len() > 0);
    }
    if v.ready && v.devices@.len() == 0 {
        assert(!has_state(v.devices@, "device"@));
        assert(!has_state(v.devices@, "unauthorized"@));
        assert(!has_state(v.devices@, "offline"@));
    }
}

} // verus!
