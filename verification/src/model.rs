//! Devices and wireless services as ADB reports them, and the addresses and
//! pairing codes a user types.
use vstd::prelude::*;
use crate::address::{
    Endpoint, endpoint_string, endpoint_text, ip_is_multicast, ip_is_unspecified, is_multicast,
    address_char, decimal, is_unspecified, lemma_endpoint_reads_back, lemma_endpoint_text_chars,
    parse_endpoint, parse_socket_addr,
};
use crate::i18n::Notice;
use crate::text::{
    begins_with, chars_of, contains, contains_seq, find_char, first_index, is_whitespace, is_ws,
    lemma_first_index, lemma_lines_concat, lemma_trim_end, lemma_trim_start, lines, push_all, replace_char, same_chars,
    split_lines, split_words, starts_with, string_of, strip_cr, trim, trim_bounds, words,
};

verus! {

broadcast use vstd::string::group_string_axioms;

/// One row of `adb devices -l`.
#[derive(Clone, Debug, PartialEq)]
pub struct Device {
    pub serial: String,
    pub name: String,
    pub state: String,
}

/// A device row as plain text values.
pub struct DeviceView {
    pub serial: Seq<char>,
    pub name: Seq<char>,
    pub state: Seq<char>,
}

impl View for Device {
    type V = DeviceView;

    open spec fn view(&self) -> DeviceView {
        DeviceView { serial: self.serial@, name: self.name@, state: self.state@ }
    }
}

/// The connection states that mark a row of the device list.
pub open spec fn known_state(s: Seq<char>) -> bool {
    ||| s == "device"@
    ||| s == "unauthorized"@
    ||| s == "offline"@
    ||| s == "recovery"@
    ||| s == "sideload"@
    ||| s == "bootloader"@
    ||| s == "no"@
}

/// The text after `model:` in the first of `ws` that begins with it.
pub open spec fn model_name(ws: Seq<Seq<char>>) -> Option<Seq<char>>
    decreases ws.len(),
{
    if ws.len() == 0 {
        None
    } else if starts_with(ws[0], "model:"@) {
        Some(ws[0].skip("model:"@.len() as int))
    } else {
        model_name(ws.drop_first())
    }
}

/// The device that a line of `adb devices -l` describes: serial and state
/// are its first two words, the state one of the known ones; the name is the
/// `model:` value with `_` as spaces, or else the serial.
pub open spec fn device_row(line: Seq<char>) -> Option<DeviceView> {
    let w = words(line);
    if w.len() < 2 || !known_state(w[1]) {
        None
    } else {
        let name = match model_name(w.skip(2)) {
            Some(n) => n,
            None => w[0],
        };
        Some(DeviceView { serial: w[0], name: replace_char(name, '_', ' '), state: w[1] })
    }
}

/// The devices that the lines describe, in order.
pub open spec fn device_rows(ls: Seq<Seq<char>>) -> Seq<DeviceView>
    decreases ls.len(),
{
    if ls.len() == 0 {
        seq![]
    } else {
        let rest = device_rows(ls.drop_last());
        match device_row(ls.last()) {
            Some(d) => rest.push(d),
            None => rest,
        }
    }
}

/// The devices that `adb devices -l` output lists.
pub open spec fn device_list(text: Seq<char>) -> Seq<DeviceView> {
    device_rows(lines(text))
}

/// The devices of lines given in two parts are those of each part, in order.
proof fn lemma_device_rows_concat(x: Seq<Seq<char>>, y: Seq<Seq<char>>)
    ensures
        device_rows(x + y) == device_rows(x) + device_rows(y),
    decreases y.len(),
{
    if y.len() == 0 {
        assert(x + y =~= x);
        assert(device_rows(x) + device_rows(y) =~= device_rows(x));
    } else {
        lemma_device_rows_concat(x, y.drop_last());
        assert((x + y).drop_last() =~= x + y.drop_last());
        assert((x + y).last() == y.last());
        match device_row(y.last()) {
            Some(d) => {
                assert(device_rows(x + y) =~= device_rows(x) + device_rows(y));
            },
            None => {},
        }
    }
}

/// Device lists are read line by line: output that is empty or ends with a
/// line break, followed by more output, lists its devices and then those of
/// the rest.
pub proof fn lemma_device_list_concat(a: Seq<char>, b: Seq<char>)
    requires
        a.len() == 0 || a.last() == '\n',
    ensures
        device_list(a + b) == device_list(a) + device_list(b),
{
    lemma_lines_concat(a, b);
    lemma_device_rows_concat(lines(a), lines(b));
}

fn spells(v: &[char], lit: &str) -> (r: bool)
    ensures
        r == (v@ == lit@),
{
    let l = chars_of(lit);
    same_chars(v, &l)
}

fn is_known_state(v: &[char]) -> (r: bool)
    ensures
        r == known_state(v@),
{
    spells(v, "device") || spells(v, "unauthorized") || spells(v, "offline") || spells(
        v,
        "recovery",
    ) || spells(v, "sideload") || spells(v, "bootloader") || spells(v, "no")
}

/// A string of the characters with `_` as spaces.
fn underscores_as_spaces(v: &[char], from: usize) -> (r: String)
    requires
        from <= v@.len(),
    ensures
        r@ == replace_char(v@.skip(from as int), '_', ' '),
{
    let mut r = String::new();
    let mut i = from;
    while i < v.len()
        invariant
            from <= i <= v@.len(),
            r@ == replace_char(v@.subrange(from as int, i as int), '_', ' '),
        decreases v@.len() - i,
    {
        let c = if v[i] == '_' {
            ' '
        } else {
            v[i]
        };
        crate::text::push_char(&mut r, c);
        i = i + 1;
        assert(r@ =~= replace_char(v@.subrange(from as int, i as int), '_', ' '));
    }
    assert(v@.subrange(from as int, v@.len() as int) =~= v@.skip(from as int));
    r
}

/// The device of one line, if the line describes one.
fn parse_device_row(line: &[char]) -> (r: Option<Device>)
    ensures
        match device_row(line@) {
            Some(d) => r matches Some(x) && x@ == d,
            None => r is None,
        },
{
    let w = split_words(line);
    let ghost wv = w@.map_values(|l: Vec<char>| l@);
    assert(wv == words(line@));
    if w.len() < 2 {
        return None;
    }
    assert(wv[1] == w@[1]@);
    if !is_known_state(&w[1]) {
        return None;
    }
    let prefix = chars_of("model:");
    let mut j: usize = 2;
    assert(wv.skip(2) =~= wv.skip(j as int));
    while j < w.len()
        invariant
            2 <= j <= w@.len(),
            wv == w@.map_values(|l: Vec<char>| l@),
            wv == words(line@),
            known_state(wv[1]),
            prefix@ == "model:"@,
            model_name(wv.skip(2)) == model_name(wv.skip(j as int)),
        decreases w@.len() - j,
    {
        assert(wv[j as int] == w@[j as int]@);
        if begins_with(&w[j], &prefix) {
            assert(wv.skip(j as int)[0] == wv[j as int]);
            assert(model_name(wv.skip(j as int)) == Some(wv[j as int].skip(prefix@.len() as int)));
            let name = underscores_as_spaces(&w[j], prefix.len());
            let serial = string_of(&w[0], 0, w[0].len());
            let state = string_of(&w[1], 0, w[1].len());
            assert(w@[0]@.subrange(0, w@[0]@.len() as int) =~= w@[0]@);
            assert(w@[1]@.subrange(0, w@[1]@.len() as int) =~= w@[1]@);
            assert(wv[0] == w@[0]@);
            let d = Device { serial, name, state };
            assert(device_row(line@) == Some(d@));
            return Some(d);
        }
        assert(wv.skip(j as int).drop_first() =~= wv.skip(j + 1));
        j = j + 1;
    }
    assert(wv.skip(j as int) =~= Seq::<Seq<char>>::empty());
    let name = underscores_as_spaces(&w[0], 0);
    let serial = string_of(&w[0], 0, w[0].len());
    let state = string_of(&w[1], 0, w[1].len());
    assert(w@[0]@.subrange(0, w@[0]@.len() as int) =~= w@[0]@);
    assert(w@[1]@.subrange(0, w@[1]@.len() as int) =~= w@[1]@);
    assert(w@[0]@.skip(0) =~= w@[0]@);
    assert(wv[0] == w@[0]@);
    Some(Device { serial, name, state })
}

/// The devices that `adb devices -l` lists, in order. The header line and
/// any line whose second word is not a device state are skipped.
pub fn devices(text: &str) -> (r: Vec<Device>)
    ensures
        r@.map_values(|d: Device| d@) == device_list(text@),
{
    let v = chars_of(text);
    let ls = split_lines(&v);
    let ghost lv = ls@.map_values(|l: Vec<char>| l@);
    let mut r: Vec<Device> = Vec::new();
    let mut i: usize = 0;
    assert(lv.take(0) =~= Seq::<Seq<char>>::empty());
    while i < ls.len()
        invariant
            i <= ls@.len(),
            lv == ls@.map_values(|l: Vec<char>| l@),
            r@.map_values(|d: Device| d@) == device_rows(lv.take(i as int)),
        decreases ls@.len() - i,
    {
        let ghost before = r@;
        assert(lv.take(i + 1).drop_last() =~= lv.take(i as int));
        assert(lv[i as int] == ls@[i as int]@);
        match parse_device_row(&ls[i]) {
            Some(d) => {
                r.push(d);
                assert(r@.map_values(|d: Device| d@) =~= before.map_values(|d: Device| d@).push(
                    d@,
                ));
            },
            None => {},
        }
        i = i + 1;
    }
    assert(lv.take(ls@.len() as int) =~= lv);
    r
}

/// Whether a serial names a device attached over the network: `IP:port`
/// from `adb connect`, or an mDNS name `adb-…._adb-tls-connect._tcp` (with
/// or without a final dot).
pub open spec fn is_wireless(serial: Seq<char>) -> bool {
    first_index(serial, ':') < serial.len() || contains_seq(serial, "._adb-tls-connect._tcp"@)
}

/// Whether the device with this serial is attached over the network.
pub fn wireless(serial: &str) -> (r: bool)
    ensures
        r == is_wireless(serial@),
{
    let v = chars_of(serial);
    assert(v@.skip(0) =~= v@);
    let colon = find_char(&v, 0, ':');
    if colon < v.len() {
        return true;
    }
    let pat = chars_of("._adb-tls-connect._tcp");
    contains(&v, &pat)
}

/// A character as typed on a phone-aware input method, read as ASCII:
/// full-width digits, full-width or ideographic full stops, full-width colon.
pub open spec fn tidy_char(c: char) -> char {
    let n = c as u32;
    if 0xff10 <= n <= 0xff19 {
        ((n - 0xff10 + 0x30) as u8) as char
    } else if n == 0xff0e || n == 0x3002 {
        '.'
    } else if n == 0xff1a {
        ':'
    } else {
        c
    }
}

/// The input with surrounding whitespace removed and full-width characters
/// read as ASCII.
pub open spec fn tidy_text(s: Seq<char>) -> Seq<char> {
    trim(s).map_values(|c: char| tidy_char(c))
}

fn tidy_character(c: char) -> (r: char)
    ensures
        r == tidy_char(c),
{
    let n = c as u32;
    if 0xff10 <= n && n <= 0xff19 {
        ((n - 0xff10 + 0x30) as u8) as char
    } else if n == 0xff0e || n == 0x3002 {
        '.'
    } else if n == 0xff1a {
        ':'
    } else {
        c
    }
}

/// The tidied characters of an input.
fn tidy(text: &str) -> (r: Vec<char>)
    ensures
        r@ == tidy_text(text@),
{
    let v = chars_of(text);
    let (a, b) = trim_bounds(&v);
    let mut r: Vec<char> = Vec::new();
    let mut i = a;
    while i < b
        invariant
            a <= i <= b <= v@.len(),
            r@ == v@.subrange(a as int, i as int).map_values(|c: char| tidy_char(c)),
        decreases b - i,
    {
        r.push(tidy_character(v[i]));
        i = i + 1;
        assert(r@ =~= v@.subrange(a as int, i as int).map_values(|c: char| tidy_char(c)));
    }
    r
}

/// Position of the last space or hyphen, or -1.
pub open spec fn last_separator(s: Seq<char>) -> int
    decreases s.len(),
{
    if s.len() == 0 {
        -1
    } else if s.last() == ' ' || s.last() == '-' {
        s.len() - 1
    } else {
        last_separator(s.drop_last())
    }
}

/// `s` without whitespace characters.
pub open spec fn without_ws(s: Seq<char>) -> Seq<char>
    decreases s.len(),
{
    if s.len() == 0 {
        seq![]
    } else if is_ws(s.last()) {
        without_ws(s.drop_last())
    } else {
        without_ws(s.drop_last()).push(s.last())
    }
}

/// The text read as an address: tidied; without a colon, the last space or
/// hyphen taken as the colon before the port; then whitespace removed.
pub open spec fn address_input(text: Seq<char>) -> Seq<char> {
    let t = tidy_text(text);
    let u = if first_index(t, ':') < t.len() {
        t
    } else if last_separator(t) >= 0 {
        t.update(last_separator(t), ':')
    } else {
        t
    };
    without_ws(u)
}

/// The address a user typed: `IP:port`, `IP port` or `IP-port`, with
/// full-width characters allowed. Refused when it is no socket address
/// (`AddressFormat`), and when its port is 0 or its IP unspecified or
/// multicast (`AddressRange`).
#[verifier::opaque]
pub open spec fn endpoint_of(text: Seq<char>) -> Result<Endpoint, Notice> {
    match parse_socket_addr(address_input(text)) {
        None => Err(Notice::AddressFormat),
        Some(a) => if a.port == 0 || is_unspecified(a.ip) || is_multicast(a.ip) {
            Err(Notice::AddressRange)
        } else {
            Ok(a)
        },
    }
}

/// Position of the last space or hyphen in `v`, if any.
fn find_last_separator(v: &[char]) -> (r: Option<usize>)
    ensures
        match r {
            Some(i) => i < v@.len() && last_separator(v@) == i,
            None => last_separator(v@) == -1,
        },
{
    let mut n = v.len();
    assert(v@.take(n as int) =~= v@);
    while n > 0
        invariant
            n <= v@.len(),
            last_separator(v@) == last_separator(v@.take(n as int)),
        decreases n,
    {
        assert(v@.take(n as int).drop_last() =~= v@.take(n - 1));
        if v[n - 1] == ' ' || v[n - 1] == '-' {
            return Some(n - 1);
        }
        n = n - 1;
    }
    None
}

/// The characters of `v` that are not whitespace.
fn remove_whitespace(v: &[char]) -> (r: Vec<char>)
    ensures
        r@ == without_ws(v@),
{
    let mut r: Vec<char> = Vec::new();
    let mut i: usize = 0;
    assert(v@.take(0) =~= Seq::<char>::empty());
    while i < v.len()
        invariant
            i <= v@.len(),
            r@ == without_ws(v@.take(i as int)),
        decreases v@.len() - i,
    {
        assert(v@.take(i + 1).drop_last() =~= v@.take(i as int));
        if !is_whitespace(v[i]) {
            r.push(v[i]);
        }
        i = i + 1;
    }
    assert(v@.take(v@.len() as int) =~= v@);
    r
}

/// A character of a dotted IPv4 address or of a port: an ASCII digit or a dot.
pub open spec fn dotted_char(c: char) -> bool {
    ('0' <= c && c <= '9') || c == '.'
}

/// Text without whitespace is kept whole by `without_ws`.
proof fn lemma_without_ws_keeps(s: Seq<char>)
    requires
        forall|i: int| 0 <= i < s.len() ==> !is_ws(#[trigger] s[i]),
    ensures
        without_ws(s) == s,
    decreases s.len(),
{
    if s.len() > 0 {
        lemma_without_ws_keeps(s.drop_last());
        assert(s.drop_last().push(s.last()) =~= s);
    }
}

/// The last space or hyphen is at `m` when none follows it.
proof fn lemma_last_separator_at(s: Seq<char>, m: int)
    requires
        0 <= m < s.len(),
        s[m] == ' ' || s[m] == '-',
        forall|k: int| m < k < s.len() ==> #[trigger] s[k] != ' ' && s[k] != '-',
    ensures
        last_separator(s) == m,
    decreases s.len(),
{
    if m < s.len() - 1 {
        lemma_last_separator_at(s.drop_last(), m);
    }
}

/// An address typed with a space or a hyphen before the port reads as the
/// same address typed with a colon: `192.168.1.2 37001` and
/// `192.168.1.2-37001` are `192.168.1.2:37001`.
pub proof fn lemma_separator_reads_as_colon(ip: Seq<char>, port: Seq<char>, sep: char)
    requires
        ip.len() > 0,
        port.len() > 0,
        sep == ' ' || sep == '-',
        forall|i: int| 0 <= i < ip.len() ==> dotted_char(#[trigger] ip[i]),
        forall|i: int| 0 <= i < port.len() ==> '0' <= #[trigger] port[i] && port[i] <= '9',
    ensures
        endpoint_of(ip + seq![sep] + port) == endpoint_of(ip + seq![':'] + port),
{
    let x = ip + seq![sep] + port;
    let y = ip + seq![':'] + port;
    let m = ip.len() as int;
    assert forall|i: int| 0 <= i < x.len() implies tidy_char(#[trigger] x[i]) == x[i] && (i != m
        ==> dotted_char(x[i])) by {
        if i < m {
            assert(x[i] == ip[i]);
        } else if i > m {
            assert(x[i] == port[i - m - 1]);
        }
    }
    assert forall|i: int| 0 <= i < y.len() implies tidy_char(#[trigger] y[i]) == y[i] && !is_ws(
        y[i],
    ) && (i != m ==> dotted_char(y[i])) by {
        if i < m {
            assert(y[i] == ip[i]);
        } else if i > m {
            assert(y[i] == port[i - m - 1]);
        }
    }
    assert(x[0] == ip[0]);
    assert(x[x.len() - 1] == port[port.len() - 1]);
    assert(y[0] == ip[0]);
    assert(y[y.len() - 1] == port[port.len() - 1]);
    lemma_trim_start(x, 0);
    assert(x.skip(0) =~= x);
    lemma_trim_end(x, x.len() as int);
    assert(x.take(x.len() as int) =~= x);
    lemma_trim_start(y, 0);
    assert(y.skip(0) =~= y);
    lemma_trim_end(y, y.len() as int);
    assert(y.take(y.len() as int) =~= y);
    assert(tidy_text(x) =~= x);
    assert(tidy_text(y) =~= y);
    lemma_first_index(x, ':', x.len() as int);
    lemma_first_index(y, ':', m);
    lemma_last_separator_at(x, m);
    assert(x.update(m, ':') =~= y);
    lemma_without_ws_keeps(y);
    assert(address_input(x) == y);
    assert(address_input(y) == y);
    reveal(endpoint_of);
}

/// The full-width form in which phone-aware input methods type an ASCII
/// digit, full stop or colon; other characters stay as they are.
pub open spec fn full_width(c: char) -> char {
    if '0' <= c && c <= '9' {
        ((c as u32) + 0xfee0) as char
    } else if c == '.' {
        '\u{ff0e}'
    } else if c == ':' {
        '\u{ff1a}'
    } else {
        c
    }
}

/// Full-width digits, full stops and colons are tidied into their ASCII
/// forms, which tidying keeps.
proof fn lemma_tidy_full_width(x: Seq<char>)
    requires
        forall|i: int| 0 <= i < x.len() ==> dotted_char(#[trigger] x[i]) || x[i] == ':',
    ensures
        tidy_text(x.map_values(|c: char| full_width(c))) == x,
        tidy_text(x) == x,
{
    let f = x.map_values(|c: char| full_width(c));
    assert forall|i: int| 0 <= i < x.len() implies tidy_char(#[trigger] f[i]) == x[i] && !is_ws(
        f[i],
    ) && tidy_char(x[i]) == x[i] && !is_ws(x[i]) by {
        let c = x[i];
        if '0' <= c && c <= '9' {
            let n = c as u32;
            assert(f[i] as u32 == n + 0xfee0);
            assert(((n + 0xfee0 - 0xff10 + 0x30) as u8) as char == c);
        }
    }
    if x.len() > 0 {
        lemma_trim_start(x, 0);
        lemma_trim_end(x, x.len() as int);
        lemma_trim_start(f, 0);
        lemma_trim_end(f, f.len() as int);
    }
    assert(x.skip(0) =~= x);
    assert(x.take(x.len() as int) =~= x);
    assert(f.skip(0) =~= f);
    assert(f.take(f.len() as int) =~= f);
    assert(trim(x) == x);
    assert(trim(f) == f);
    assert(tidy_text(x) =~= x);
    assert(tidy_text(f) =~= x);
}

/// An address typed in full-width digits, full stops and colon reads as the
/// same address typed in ASCII.
pub proof fn lemma_full_width_reads_as_ascii(x: Seq<char>)
    requires
        forall|i: int| 0 <= i < x.len() ==> dotted_char(#[trigger] x[i]) || x[i] == ':',
    ensures
        endpoint_of(x.map_values(|c: char| full_width(c))) == endpoint_of(x),
{
    lemma_tidy_full_width(x);
    reveal(endpoint_of);
}

/// `first_index` is at most the position of any occurrence.
proof fn lemma_first_index_at_most(s: Seq<char>, c: char, k: int)
    requires
        0 <= k < s.len(),
        s[k] == c,
    ensures
        first_index(s, c) <= k,
    decreases s.len(),
{
    if s[0] != c {
        lemma_first_index_at_most(s.drop_first(), c, k - 1);
    }
}

/// An address that this library writes for a phone (a port other than 0, an
/// IP neither unspecified nor multicast, and for IPv4 no scope) reads back
/// as the same address when given as input.
pub proof fn lemma_written_address_reads_back(e: Endpoint)
    requires
        e.ip is V4 ==> e.scope_id == 0,
        e.port != 0,
        !is_unspecified(e.ip),
        !is_multicast(e.ip),
    ensures
        endpoint_of(endpoint_text(e)) == Ok::<Endpoint, Notice>(e),
{
    let x = endpoint_text(e);
    lemma_endpoint_text_chars(e);
    lemma_endpoint_reads_back(e);
    assert forall|i: int| 0 <= i < x.len() implies tidy_char(#[trigger] x[i]) == x[i] && !is_ws(
        x[i],
    ) by {
        assert(address_char(x[i]));
    }
    lemma_trim_start(x, 0);
    lemma_trim_end(x, x.len() as int);
    assert(x.skip(0) =~= x);
    assert(x.take(x.len() as int) =~= x);
    assert(tidy_text(x) =~= x);
    let k = x.len() - decimal(e.port as nat).len() - 1;
    lemma_first_index_at_most(x, ':', k);
    lemma_without_ws_keeps(x);
    assert(address_input(x) == x);
    reveal(endpoint_of);
}

/// The device states that `adb devices -l` rows are listed with: exactly
/// `device`, `unauthorized`, `offline`, `recovery`, `sideload`, `bootloader`
/// and `no`.
pub open spec fn listed_state(st: Seq<char>) -> bool {
    st == "device"@ || st == "unauthorized"@ || st == "offline"@ || st == "recovery"@ || st
        == "sideload"@ || st == "bootloader"@ || st == "no"@
}

/// A line of two words, a serial and a state, is listed as a device exactly
/// when the state is one of the seven `adb` reports, with the serial (its
/// `_` as spaces) for the name; any other state lists nothing.
pub proof fn lemma_state_rows(line: Seq<char>, serial: Seq<char>, state: Seq<char>)
    requires
        words(line) == seq![serial, state],
        forall|i: int| 0 <= i < line.len() ==> line[i] != '\n',
        line.len() == 0 || line.last() != '\r',
    ensures
        device_list(line + seq!['\n']) == if listed_state(state) {
            seq![DeviceView { serial, name: replace_char(serial, '_', ' '), state }]
        } else {
            Seq::<DeviceView>::empty()
        },
{
    let t = line + seq!['\n'];
    assert forall|k: int| 0 <= k < line.len() implies t[k] != '\n' by {
        assert(t[k] == line[k]);
    }
    lemma_first_index(t, '\n', line.len() as int);
    assert(t.take(line.len() as int) =~= line);
    assert(t.skip(line.len() + 1 as int) =~= Seq::<char>::empty());
    assert(lines(Seq::<char>::empty()) =~= Seq::<Seq<char>>::empty());
    assert(strip_cr(line) == line);
    assert(lines(t) =~= seq![line]);
    let w = words(line);
    assert(w.skip(2) =~= Seq::<Seq<char>>::empty());
    assert(model_name(w.skip(2)) is None);
    assert(seq![line].drop_last() =~= Seq::<Seq<char>>::empty());
    assert(device_rows(Seq::<Seq<char>>::empty()) =~= Seq::<DeviceView>::empty());
    assert(known_state(state) == listed_state(state));
    if listed_state(state) {
        assert(device_rows(seq![line]) =~= seq![
            DeviceView { serial, name: replace_char(serial, '_', ' '), state },
        ]);
    } else {
        assert(device_rows(seq![line]) =~= Seq::<DeviceView>::empty());
    }
}

/// A row that gives the model (`model:X` as its third word) is named after
/// the model, with `_` as spaces.
pub proof fn lemma_model_names_row(line: Seq<char>, serial: Seq<char>, state: Seq<char>, model: Seq<char>)
    requires
        words(line) == seq![serial, state, "model:"@ + model],
        listed_state(state),
    ensures
        device_row(line) == Some(DeviceView { serial, name: replace_char(model, '_', ' '), state }),
{
    reveal_strlit("model:");
    let w = words(line);
    let m = "model:"@ + model;
    assert(w.skip(2) =~= seq![m]);
    assert(m.take(6) =~= "model:"@);
    assert(starts_with(m, "model:"@));
    assert(m.skip(6) =~= model);
    assert(model_name(w.skip(2)) == Some(model));
}

/// A service type with a trailing dot, as some `adb` versions print it,
/// reads as the same type without it, for pairing and connection services
/// alike; with a valid address the row gives a service of that name and
/// address, a pairing one exactly for the pairing type.
pub proof fn lemma_service_type_dot(
    line_dot: Seq<char>,
    line: Seq<char>,
    name: Seq<char>,
    kind: Seq<char>,
    address: Seq<char>,
)
    requires
        kind == "_adb-tls-pairing._tcp"@ || kind == "_adb-tls-connect._tcp"@,
        words(line_dot) == seq![name, kind.push('.'), address],
        words(line) == seq![name, kind, address],
    ensures
        service_row(line_dot) == service_row(line),
        endpoint_of(address) matches Ok(a) ==> service_row(line) == Some(
            ServiceView { name, address: a, pairing: kind == "_adb-tls-pairing._tcp"@ },
        ),
{
    reveal_strlit("_adb-tls-pairing._tcp");
    reveal_strlit("_adb-tls-connect._tcp");
    assert(kind.len() > 0 && kind.last() == 'p');
    assert(kind.push('.').drop_last() =~= kind);
    assert(trim_dots(kind) == kind);
    assert(trim_dots(kind.push('.')) == kind);
}

/// Reads the phone's IP address and port as the user typed them.
pub fn endpoint(text: &str) -> (r: Result<Endpoint, Notice>)
    ensures
        r == endpoint_of(text@),
{
    let mut t = tidy(text);
    let ghost t0 = t@;
    assert(t@.skip(0) =~= t@);
    if find_char(&t, 0, ':') >= t.len() {
        match find_last_separator(&t) {
            Some(i) => {
                t.set(i, ':');
            },
            None => {},
        }
    }
    let u = remove_whitespace(&t);
    proof {
        reveal(endpoint_of);
    }
    match parse_endpoint(&u) {
        None => Err(Notice::AddressFormat),
        Some(a) => {
            if a.port == 0 || ip_is_unspecified(&a.ip) || ip_is_multicast(&a.ip) {
                Err(Notice::AddressRange)
            } else {
                Ok(a)
            }
        },
    }
}

/// A wireless debugging service found over mDNS.
#[derive(Clone, Debug, PartialEq)]
pub struct Service {
    /// mDNS instance name, e.g. `adb-R3CX0A1B2C3-k2Qw9z`; also the prefix of the
    /// serial ADB assigns when it connects to the phone over mDNS.
    pub name: String,
    pub address: Endpoint,
    /// A pairing service (`_adb-tls-pairing._tcp`) rather than a connection
    /// service (`_adb-tls-connect._tcp`).
    pub pairing: bool,
}

/// A service as plain values.
pub struct ServiceView {
    pub name: Seq<char>,
    pub address: Endpoint,
    pub pairing: bool,
}

impl View for Service {
    type V = ServiceView;

    open spec fn view(&self) -> ServiceView {
        ServiceView { name: self.name@, address: self.address, pairing: self.pairing }
    }
}

impl Service {
    /// A copy of the service.
    pub fn duplicate(&self) -> (r: Service)
        ensures
            r@ == self@,
    {
        Service { name: self.name.clone(), address: self.address, pairing: self.pairing }
    }
}

/// `s` without trailing dots.
pub open spec fn trim_dots(s: Seq<char>) -> Seq<char>
    decreases s.len(),
{
    if s.len() > 0 && s.last() == '.' {
        trim_dots(s.drop_last())
    } else {
        s
    }
}

/// The service that a line of `adb mdns services` describes: exactly three
/// words (name, service type, address); the type, without trailing dots,
/// names pairing or connection; the address is a valid endpoint.
pub open spec fn service_row(line: Seq<char>) -> Option<ServiceView> {
    let w = words(line);
    if w.len() != 3 {
        None
    } else {
        let kind = trim_dots(w[1]);
        if kind != "_adb-tls-pairing._tcp"@ && kind != "_adb-tls-connect._tcp"@ {
            None
        } else {
            match endpoint_of(w[2]) {
                Ok(a) => Some(
                    ServiceView { name: w[0], address: a, pairing: kind == "_adb-tls-pairing._tcp"@ },
                ),
                Err(_) => None,
            }
        }
    }
}

/// The services that the lines describe, in order.
pub open spec fn service_rows(ls: Seq<Seq<char>>) -> Seq<ServiceView>
    decreases ls.len(),
{
    if ls.len() == 0 {
        seq![]
    } else {
        let rest = service_rows(ls.drop_last());
        match service_row(ls.last()) {
            Some(s) => rest.push(s),
            None => rest,
        }
    }
}

/// The services that `adb mdns services` output lists.
pub open spec fn service_list(text: Seq<char>) -> Seq<ServiceView> {
    service_rows(lines(text))
}

/// Length of `v` without trailing dots.
fn trim_dots_len(v: &[char]) -> (r: usize)
    ensures
        r <= v@.len(),
        trim_dots(v@) == v@.take(r as int),
{
    let mut n = v.len();
    assert(v@.take(n as int) =~= v@);
    while n > 0 && v[n - 1] == '.'
        invariant
            n <= v@.len(),
            trim_dots(v@) == trim_dots(v@.take(n as int)),
        decreases n,
    {
        assert(v@.take(n as int).drop_last() =~= v@.take(n - 1));
        n = n - 1;
    }
    n
}

/// The service of one line, if the line describes one.
fn parse_service_row(line: &[char]) -> (r: Option<Service>)
    ensures
        match service_row(line@) {
            Some(s) => r matches Some(x) && x@ == s,
            None => r is None,
        },
{
    let w = split_words(line);
    let ghost wv = w@.map_values(|l: Vec<char>| l@);
    assert(wv == words(line@));
    if w.len() != 3 {
        return None;
    }
    assert(wv[0] == w@[0]@ && wv[1] == w@[1]@ && wv[2] == w@[2]@);
    let n = trim_dots_len(&w[1]);
    let mut kind: Vec<char> = Vec::new();
    let mut k: usize = 0;
    while k < n
        invariant
            w@.len() == 3,
            k <= n <= w@[1]@.len(),
            kind@ == w@[1]@.take(k as int),
        decreases n - k,
    {
        kind.push(w[1][k]);
        k = k + 1;
        assert(kind@ =~= w@[1]@.take(k as int));
    }
    let pairing = spells(&kind, "_adb-tls-pairing._tcp");
    if !pairing && !spells(&kind, "_adb-tls-connect._tcp") {
        return None;
    }
    let text = string_of(&w[2], 0, w[2].len());
    assert(w@[2]@.subrange(0, w@[2]@.len() as int) =~= w@[2]@);
    match endpoint(text.as_str()) {
        Ok(a) => {
            let name = string_of(&w[0], 0, w[0].len());
            assert(w@[0]@.subrange(0, w@[0]@.len() as int) =~= w@[0]@);
            Some(Service { name, address: a, pairing })
        },
        Err(_) => None,
    }
}

/// The wireless services that `adb mdns services` lists, in order. Lines of
/// other service types, and addresses that are no valid endpoint, are
/// skipped; pairing and connection services stay separate entries.
pub fn services(text: &str) -> (r: Vec<Service>)
    ensures
        r@.map_values(|s: Service| s@) == service_list(text@),
{
    let v = chars_of(text);
    let ls = split_lines(&v);
    let ghost lv = ls@.map_values(|l: Vec<char>| l@);
    let mut r: Vec<Service> = Vec::new();
    let mut i: usize = 0;
    assert(lv.take(0) =~= Seq::<Seq<char>>::empty());
    while i < ls.len()
        invariant
            i <= ls@.len(),
            lv == ls@.map_values(|l: Vec<char>| l@),
            r@.map_values(|s: Service| s@) == service_rows(lv.take(i as int)),
        decreases ls@.len() - i,
    {
        let ghost before = r@;
        assert(lv.take(i + 1).drop_last() =~= lv.take(i as int));
        assert(lv[i as int] == ls@[i as int]@);
        match parse_service_row(&ls[i]) {
            Some(s) => {
                r.push(s);
                assert(r@.map_values(|s: Service| s@) =~= before.map_values(|s: Service| s@).push(
                    s@,
                ));
            },
            None => {},
        }
        i = i + 1;
    }
    assert(lv.take(ls@.len() as int) =~= lv);
    r
}

/// Position of the last `-` in `s`, or -1.
pub open spec fn last_dash(s: Seq<char>) -> int
    decreases s.len(),
{
    if s.len() == 0 {
        -1
    } else if s.last() == '-' {
        s.len() - 1
    } else {
        last_dash(s.drop_last())
    }
}

/// Number of bytes of the UTF-8 encoding of `c`.
pub open spec fn utf8_width(c: char) -> nat {
    let n = c as u32;
    if n < 0x80 {
        1
    } else if n < 0x800 {
        2
    } else if n < 0x10000 {
        3
    } else {
        4
    }
}

/// Number of bytes of the UTF-8 encoding of `s` (`str::len`).
pub open spec fn utf8_len(s: Seq<char>) -> nat
    decreases s.len(),
{
    if s.len() == 0 {
        0
    } else {
        utf8_len(s.drop_last()) + utf8_width(s.last())
    }
}

/// Whether `v[from..]` is encoded in exactly `n` UTF-8 bytes.
fn utf8_len_is(v: &[char], from: usize, n: usize) -> (r: bool)
    requires
        from <= v@.len(),
        n <= 0xffff,
    ensures
        r == (utf8_len(v@.skip(from as int)) == n),
{
    let mut total: usize = 0;
    let mut i = from;
    assert(v@.subrange(from as int, from as int) =~= Seq::<char>::empty());
    while i < v.len()
        invariant
            from <= i <= v@.len(),
            n <= 0xffff,
            total == utf8_len(v@.subrange(from as int, i as int)),
            total <= n,
        decreases v@.len() - i,
    {
        let c = v[i] as u32;
        let w: usize = if c < 0x80 {
            1
        } else if c < 0x800 {
            2
        } else if c < 0x10000 {
            3
        } else {
            4
        };
        assert(v@.subrange(from as int, i + 1).drop_last() =~= v@.subrange(from as int, i as int));
        total = total + w;
        i = i + 1;
        if total > n {
            proof {
                lemma_utf8_len_grows(v@.skip(from as int), i - from);
                assert(v@.skip(from as int).take(i - from) =~= v@.subrange(from as int, i as int));
            }
            return false;
        }
    }
    assert(v@.subrange(from as int, v@.len() as int) =~= v@.skip(from as int));
    total == n
}

/// Whether `v[from..]` is encoded in at most `n` UTF-8 bytes.
pub fn utf8_len_at_most(v: &[char], from: usize, n: usize) -> (r: bool)
    requires
        from <= v@.len(),
        n <= 0xffff,
    ensures
        r == (utf8_len(v@.skip(from as int)) <= n),
{
    let mut total: usize = 0;
    let mut i = from;
    assert(v@.subrange(from as int, from as int) =~= Seq::<char>::empty());
    while i < v.len()
        invariant
            from <= i <= v@.len(),
            n <= 0xffff,
            total == utf8_len(v@.subrange(from as int, i as int)),
            total <= n,
        decreases v@.len() - i,
    {
        let c = v[i] as u32;
        let w: usize = if c < 0x80 {
            1
        } else if c < 0x800 {
            2
        } else if c < 0x10000 {
            3
        } else {
            4
        };
        assert(v@.subrange(from as int, i + 1).drop_last() =~= v@.subrange(from as int, i as int));
        total = total + w;
        i = i + 1;
        if total > n {
            proof {
                lemma_utf8_len_grows(v@.skip(from as int), i - from);
                assert(v@.skip(from as int).take(i - from) =~= v@.subrange(from as int, i as int));
            }
            return false;
        }
    }
    assert(v@.subrange(from as int, v@.len() as int) =~= v@.skip(from as int));
    true
}

/// A longer text never has a shorter encoding.
proof fn lemma_utf8_len_grows(s: Seq<char>, k: int)
    requires
        0 <= k <= s.len(),
    ensures
        utf8_len(s.take(k)) <= utf8_len(s),
    decreases s.len(),
{
    if k < s.len() {
        lemma_utf8_len_grows(s.drop_last(), k);
        assert(s.drop_last().take(k) =~= s.take(k));
    } else {
        assert(s.take(k) =~= s);
    }
}

/// The phone serial inside an mDNS instance name `adb-<serial>-<suffix>`
/// whose suffix is six bytes long and whose serial is not empty.
pub open spec fn name_serial(name: Seq<char>) -> Option<Seq<char>> {
    if !starts_with(name, "adb-"@) {
        None
    } else {
        let rest = name.skip(4);
        let i = last_dash(rest);
        if i < 0 {
            None
        } else if i > 0 && utf8_len(rest.skip(i + 1)) == 6 {
            Some(rest.take(i))
        } else {
            None
        }
    }
}

fn find_last_dash(v: &[char], from: usize) -> (r: Option<usize>)
    requires
        from <= v@.len(),
    ensures
        match r {
            Some(i) => from <= i < v@.len() && last_dash(v@.skip(from as int)) == i - from,
            None => last_dash(v@.skip(from as int)) == -1,
        },
{
    let mut n = v.len();
    assert(v@.skip(from as int) =~= v@.subrange(from as int, n as int));
    while n > from
        invariant
            from <= n <= v@.len(),
            last_dash(v@.skip(from as int)) == last_dash(v@.subrange(from as int, n as int)),
        decreases n,
    {
        assert(v@.subrange(from as int, n as int).drop_last() =~= v@.subrange(
            from as int,
            n - 1,
        ));
        if v[n - 1] == '-' {
            return Some(n - 1);
        }
        n = n - 1;
    }
    None
}

impl Service {
    /// The phone's serial embedded in the instance name (`adb-<serial>-<six
    /// characters>`), if the name has that shape; used to match the phone
    /// against a device already listed by ADB.
    pub fn serial(&self) -> (r: Option<&str>)
        ensures
            match name_serial(self.name@) {
                Some(s) => r matches Some(x) && x@ == s,
                None => r is None,
            },
    {
        let v = chars_of(self.name.as_str());
        proof {
            reveal_strlit("adb-");
        }
        let prefix = chars_of("adb-");
        if !begins_with(&v, &prefix) {
            return None;
        }
        let ghost rest = v@.skip(4);
        match find_last_dash(&v, 4) {
            None => None,
            Some(i) => {
                if i == 4 {
                    return None;
                }
                assert(rest.skip(i - 4 + 1) =~= v@.skip(i + 1));
                assert(i < v.len());
                if utf8_len_is(&v, i + 1, 6) {
                    let s = self.name.as_str().substring_char(4, i);
                    assert(rest.take(i - 4) =~= v@.subrange(4, i as int));
                    Some(s)
                } else {
                    None
                }
            },
        }
    }
}

/// Whether the device row is the phone behind the service: ADB connected it
/// by the service's `IP:port`, or by the mDNS name (the serial begins with
/// the name and a dot), or its USB serial is the one in the name.
pub open spec fn is_same_phone(service: ServiceView, device: DeviceView) -> bool {
    ||| device.serial == endpoint_text(service.address)
    ||| starts_with(device.serial, service.name.push('.'))
    ||| name_serial(service.name) == Some(device.serial)
}

/// Whether `device` (an `adb devices -l` row) is the phone behind `service`.
pub fn same_phone(service: &Service, device: &Device) -> (r: bool)
    ensures
        r == is_same_phone(service@, device@),
{
    let serial = chars_of(device.serial.as_str());
    let addr = endpoint_string(&service.address);
    let a = chars_of(addr.as_str());
    if same_chars(&serial, &a) {
        return true;
    }
    let mut prefix = chars_of(service.name.as_str());
    prefix.push('.');
    if begins_with(&serial, &prefix) {
        return true;
    }
    match service.serial() {
        Some(s) => {
            let sv = chars_of(s);
            same_chars(&sv, &serial)
        },
        None => false,
    }
}

/// The characters of a pairing code as read: tidied, then without spaces and
/// hyphens.
pub open spec fn code_chars(s: Seq<char>) -> Seq<char>
    decreases s.len(),
{
    if s.len() == 0 {
        seq![]
    } else if is_ws(s.last()) || s.last() == '-' {
        code_chars(s.drop_last())
    } else {
        code_chars(s.drop_last()).push(s.last())
    }
}

/// The six-digit pairing code shown on the phone, written with spaces,
/// hyphens or full-width digits allowed; refused (`PairingCode`) unless six
/// ASCII digits remain.
pub open spec fn pairing_code_of(text: Seq<char>) -> Result<Seq<char>, Notice> {
    let c = code_chars(tidy_text(text));
    if c.len() == 6 && forall|i: int| 0 <= i < 6 ==> '0' <= #[trigger] c[i] <= '9' {
        Ok(c)
    } else {
        Err(Notice::PairingCode)
    }
}

/// An address typed with ideographic full stops (U+3002), as CJK input
/// methods write the dot, reads as the same address typed with ASCII dots.
pub proof fn lemma_ideographic_stops_read_as_dots(x: Seq<char>)
    requires
        forall|i: int| 0 <= i < x.len() ==> dotted_char(#[trigger] x[i]) || x[i] == ':',
    ensures
        endpoint_of(x.map_values(|c: char| if c == '.' { '\u{3002}' } else { c })) == endpoint_of(x),
{
    let f = x.map_values(|c: char| if c == '.' { '\u{3002}' } else { c });
    assert forall|i: int| 0 <= i < x.len() implies tidy_char(#[trigger] f[i]) == x[i] && !is_ws(
        f[i],
    ) && tidy_char(x[i]) == x[i] && !is_ws(x[i]) by {}
    if x.len() > 0 {
        lemma_trim_start(x, 0);
        lemma_trim_end(x, x.len() as int);
        lemma_trim_start(f, 0);
        lemma_trim_end(f, f.len() as int);
    }
    assert(x.skip(0) =~= x);
    assert(x.take(x.len() as int) =~= x);
    assert(f.skip(0) =~= f);
    assert(f.take(f.len() as int) =~= f);
    assert(tidy_text(x) =~= x);
    assert(tidy_text(f) =~= x);
    reveal(endpoint_of);
}

/// A pairing code typed in full-width digits reads as the same code typed in
/// ASCII digits.
pub proof fn lemma_full_width_code(x: Seq<char>)
    requires
        forall|i: int| 0 <= i < x.len() ==> '0' <= #[trigger] x[i] && x[i] <= '9',
    ensures
        pairing_code_of(x.map_values(|c: char| full_width(c))) == pairing_code_of(x),
{
    assert forall|i: int| 0 <= i < x.len() implies dotted_char(#[trigger] x[i]) || x[i] == ':' by {}
    lemma_tidy_full_width(x);
}

/// Reads the pairing code the user typed.
pub fn pairing_code(code: &str) -> (r: Result<String, Notice>)
    ensures
        match pairing_code_of(code@) {
            Ok(c) => r matches Ok(x) && x@ == c,
            Err(n) => r == Err::<String, Notice>(n),
        },
{
    let t = tidy(code);
    let mut c: Vec<char> = Vec::new();
    let mut i: usize = 0;
    assert(t@.take(0) =~= Seq::<char>::empty());
    while i < t.len()
        invariant
            i <= t@.len(),
            c@ == code_chars(t@.take(i as int)),
        decreases t@.len() - i,
    {
        assert(t@.take(i + 1).drop_last() =~= t@.take(i as int));
        if !is_whitespace(t[i]) && t[i] != '-' {
            c.push(t[i]);
        }
        i = i + 1;
    }
    assert(t@.take(t@.len() as int) =~= t@);
    if c.len() != 6 {
        return Err(Notice::PairingCode);
    }
    let mut k: usize = 0;
    while k < 6
        invariant
            k <= 6,
            c@.len() == 6,
            c@ == code_chars(tidy_text(code@)),
            forall|j: int| 0 <= j < k ==> '0' <= #[trigger] c@[j] <= '9',
        decreases 6 - k,
    {
        if !('0' <= c[k] && c[k] <= '9') {
            assert(!('0' <= c@[k as int] <= '9'));
            return Err(Notice::PairingCode);
        }
        k = k + 1;
    }
    let mut r = String::new();
    push_all(&mut r, &c);
    Ok(r)
}

} // verus!
