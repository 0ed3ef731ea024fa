//! The ADB server's host protocol as this program uses it (length-prefixed
//! requests, `OKAY` replies, the version query and the device-list
//! notifications) and the `adb` commands it runs.
use vstd::prelude::*;
use vstd::utf8::{decode_utf8, valid_utf8};
use vstd::string::StringSliceAdditionalSpecFns;
use crate::address::{
    digit_char, digit_of, digits_value, endpoint_string, endpoint_text, hexadecimal,
    lemma_digits_value_mono, write_hex,
};
use crate::i18n::Notice;
use crate::model::{
    Device, DeviceView, device_list, devices, endpoint, endpoint_of, is_wireless, pairing_code,
    pairing_code_of, wireless,
};
use crate::platform::Platform;
use crate::setup::{executable, executable_name};
use crate::text::{
    begins_with, chars_of, contains, contains_seq, lines, push_all, push_str, same_chars,
    split_lines, starts_with, string_of, trim, trim_bounds,
};

verus! {

broadcast use vstd::string::group_string_axioms;

// ---------------------------------------------------------------------------
// Numbers in the protocol
// ---------------------------------------------------------------------------

/// The value of a number as `from_str_radix` reads it: an optional `+`,
/// then one or more digits and nothing else.
pub open spec fn radix_value(s: Seq<char>, hex: bool) -> Option<nat> {
    let d = unsigned_digits(s);
    if d.len() == 0 || !all_digits(d, hex) {
        None
    } else {
        Some(digits_value(d, 0, d.len(), hex))
    }
}

/// `s` without one leading `+`.
pub open spec fn unsigned_digits(s: Seq<char>) -> Seq<char> {
    if s.len() > 0 && s[0] == '+' {
        s.skip(1)
    } else {
        s
    }
}

/// Every character of `d` is a digit.
pub open spec fn all_digits(d: Seq<char>, hex: bool) -> bool {
    forall|i: int| 0 <= i < d.len() ==> #[trigger] digit_of(d[i], hex) is Some
}

/// `radix_value` bounded by a type's maximum.
pub open spec fn bounded_value(s: Seq<char>, hex: bool, limit: nat) -> Option<nat> {
    match radix_value(s, hex) {
        Some(v) => if v <= limit {
            Some(v)
        } else {
            None
        },
        None => None,
    }
}

/// Bytes read as characters one by one; bytes above ASCII become characters
/// that are never digits.
pub open spec fn byte_chars(b: Seq<u8>) -> Seq<char> {
    b.map_values(|x: u8| x as char)
}

fn is_digit_char(c: char, hex: bool) -> (r: bool)
    ensures
        r == (digit_of(c, hex) is Some),
{
    let n = c as u32;
    (48 <= n && n <= 57) || (hex && 97 <= n && n <= 102) || (hex && 65 <= n && n <= 70)
}

fn digit_value(c: char, hex: bool) -> (r: u64)
    requires
        digit_of(c, hex) is Some,
    ensures
        r == digit_of(c, hex)->0,
{
    let n = c as u32;
    if 48 <= n && n <= 57 {
        (n - 48) as u64
    } else if 97 <= n && n <= 102 {
        (n - 87) as u64
    } else {
        (n - 55) as u64
    }
}

/// Reads `v` as `from_str_radix` does for an unsigned type whose maximum is
/// `limit`.
pub fn radix_number(v: &[char], hex: bool, limit: u64) -> (r: Option<u64>)
    requires
        limit <= 0xffff_ffff,
    ensures
        match bounded_value(v@, hex, limit as nat) {
            Some(x) => r == Some(x as u64),
            None => r is None,
        },
{
    let start: usize = if v.len() > 0 && v[0] == '+' {
        1
    } else {
        0
    };
    let ghost d = v@.skip(start as int);
    assert(d == unsigned_digits(v@)) by {
        if start == 0 {
            assert(v@.skip(0) =~= v@);
        }
    }
    if start == v.len() {
        return None;
    }
    let b: u64 = if hex {
        16
    } else {
        10
    };
    let mut k: usize = 0;
    let mut x: u64 = 0;
    while k < v.len() - start
        invariant
            start < v.len(),
            d == v@.skip(start as int),
            k <= d.len(),
            forall|j: int| 0 <= j < k ==> digit_of(#[trigger] d[j], hex) is Some,
            x == digits_value(d, 0, k as nat, hex),
            x <= limit,
            limit <= 0xffff_ffff,
            b == crate::address::base(hex),
            d == unsigned_digits(v@),
        decreases d.len() - k,
    {
        let c = v[start + k];
        assert(c == d[k as int]);
        if !is_digit_char(c, hex) {
            assert(digit_of(d[k as int], hex) is None);
            return None;
        }
        let nx = x * b + digit_value(c, hex);
        k = k + 1;
        assert(nx == digits_value(d, 0, k as nat, hex));
        if nx > limit {
            proof {
                lemma_digits_value_mono(d, 0, k as nat, d.len(), hex);
            }
            return None;
        }
        x = nx;
    }
    Some(x)
}

/// A number written as bytes, read as `from_str_radix` reads their text.
pub fn bytes_number(b: &[u8], from: usize, to: usize, hex: bool, limit: u64) -> (r: Option<u64>)
    requires
        from <= to <= b@.len(),
        limit <= 0xffff_ffff,
    ensures
        match bounded_value(byte_chars(b@.subrange(from as int, to as int)), hex, limit as nat) {
            Some(x) => r == Some(x as u64),
            None => r is None,
        },
{
    let mut v: Vec<char> = Vec::new();
    let mut i = from;
    while i < to
        invariant
            from <= i <= to <= b@.len(),
            v@ == byte_chars(b@.subrange(from as int, i as int)),
        decreases to - i,
    {
        v.push(b[i] as char);
        i = i + 1;
        assert(v@ =~= byte_chars(b@.subrange(from as int, i as int)));
    }
    radix_number(&v, hex, limit)
}

// ---------------------------------------------------------------------------
// Requests and replies
// ---------------------------------------------------------------------------

/// The ASCII bytes of a character sequence.
pub open spec fn ascii_bytes(s: Seq<char>) -> Seq<u8> {
    s.map_values(|c: char| c as u8)
}

/// The length of a request or reply as four (or more) small hexadecimal
/// digits, zero-padded (`{:04x}`).
pub open spec fn length_prefix(n: nat) -> Seq<u8> {
    let h = hexadecimal(n);
    let pad: nat = if h.len() < 4 {
        (4 - h.len()) as nat
    } else {
        0
    };
    Seq::new(pad, |i: int| 48u8) + ascii_bytes(h)
}

/// A request or notification frame: the payload's length prefix, then the
/// payload.
pub open spec fn frame(payload: Seq<u8>) -> Seq<u8> {
    length_prefix(payload.len()) + payload
}

/// The frame that asks the ADB server for `service`.
pub fn request_frame(service: &str) -> (r: Vec<u8>)
    ensures
        r@ == frame(service.spec_bytes()),
{
    let bytes = service.as_bytes();
    let mut h: Vec<char> = Vec::new();
    write_hex(&mut h, bytes.len() as u64);
    assert(h@ =~= hexadecimal(bytes@.len()));
    let mut r: Vec<u8> = Vec::new();
    let mut k = h.len();
    while k < 4
        invariant
            h.len() <= k,
            k <= 4 || k == h.len(),
            r@ == Seq::new((k - h.len()) as nat, |i: int| 48u8),
        decreases 4 - k,
    {
        r.push(48u8);
        k = k + 1;
        assert(r@ =~= Seq::new((k - h.len()) as nat, |i: int| 48u8));
    }
    let ghost padded = r@;
    let mut i: usize = 0;
    while i < h.len()
        invariant
            i <= h@.len(),
            r@ == padded + ascii_bytes(h@.take(i as int)),
        decreases h@.len() - i,
    {
        r.push(h[i] as u8);
        i = i + 1;
        assert(r@ =~= padded + ascii_bytes(h@.take(i as int)));
    }
    assert(h@.take(h@.len() as int) =~= h@);
    assert(padded + ascii_bytes(h@) =~= length_prefix(bytes@.len()));
    let ghost head = r@;
    let mut j: usize = 0;
    while j < bytes.len()
        invariant
            j <= bytes@.len(),
            r@ == head + bytes@.take(j as int),
        decreases bytes@.len() - j,
    {
        r.push(bytes[j]);
        j = j + 1;
        assert(r@ =~= head + bytes@.take(j as int));
    }
    assert(bytes@.take(bytes@.len() as int) =~= bytes@);
    r
}

/// The four bytes `OKAY`.
pub open spec fn okay() -> Seq<u8> {
    seq![79u8, 75u8, 65u8, 89u8]
}

/// Whether `b` begins with `OKAY`.
fn is_okay(b: &[u8]) -> (r: bool)
    requires
        b@.len() >= 4,
    ensures
        r == (b@.take(4) == okay()),
{
    let r = b[0] == 79 && b[1] == 75 && b[2] == 65 && b[3] == 89;
    proof {
        if !r {
            assert(b@.take(4)[0] != okay()[0] || b@.take(4)[1] != okay()[1] || b@.take(4)[2]
                != okay()[2] || b@.take(4)[3] != okay()[3]);
        } else {
            assert(b@.take(4) =~= okay());
        }
    }
    r
}

/// How one exchange with the local ADB server went.
#[derive(Clone, Debug, PartialEq, Eq)]
pub enum Answer {
    /// Nothing listens on the server port.
    Refused,
    /// Connecting failed otherwise (for instance a timeout).
    Unreachable,
    /// The request could not be sent.
    WriteFailed,
    /// The bytes read after the request: the four-byte status, then (for a
    /// query) the length prefix and the value, as far as reading succeeded.
    Reply(Vec<u8>),
}

/// The outcome of the version query: no server (`Ok(None)`), the server's
/// protocol version, or why the answer was unusable.
pub open spec fn version_of(answer: Answer) -> Result<Option<u32>, Notice> {
    match answer {
        Answer::Refused => Ok(None),
        Answer::Unreachable => Err(Notice::ServerUnreachable),
        Answer::WriteFailed => Err(Notice::ServerRequestFailed),
        Answer::Reply(b) => {
            let b = b@;
            if b.len() < 4 {
                Err(Notice::ServerSilent)
            } else if b.take(4) != okay() {
                Err(Notice::ServerUnsupported)
            } else if b.len() < 8 {
                Err(Notice::ServerReply)
            } else {
                match bounded_value(byte_chars(b.subrange(4, 8)), true, 0xffff_ffff) {
                    None => Err(Notice::ServerReply),
                    Some(n) => if n == 0 || n > 16 || b.len() < 8 + n {
                        Err(Notice::ServerReply)
                    } else {
                        match bounded_value(byte_chars(b.subrange(8, 8 + n as int)), true, 0xffff_ffff) {
                            None => Err(Notice::ServerVersion),
                            Some(v) => Ok(Some(v as u32)),
                        }
                    },
                }
            }
        },
    }
}

/// Number of value bytes that the version reply announces, when the status
/// and length prefix read so far are well formed.
pub fn reply_length(b: &[u8]) -> (r: Option<usize>)
    ensures
        match r {
            Some(n) => b@.len() >= 8 && b@.take(4) == okay() && bounded_value(
                byte_chars(b@.subrange(4, 8)),
                true,
                0xffff_ffff,
            ) == Some(n as nat) && 0 < n <= 16,
            None => !(b@.len() >= 8 && b@.take(4) == okay() && (bounded_value(
                byte_chars(b@.subrange(4, 8)),
                true,
                0xffff_ffff,
            ) matches Some(n) && 0 < n <= 16)),
        },
{
    if b.len() < 8 || !is_okay(b) {
        return None;
    }
    match bytes_number(b, 4, 8, true, 0xffff_ffff) {
        Some(n) => if n == 0 || n > 16 {
            None
        } else {
            Some(n as usize)
        },
        None => None,
    }
}

/// The ADB server's protocol version from the exchange: `None` when no
/// server runs.
pub fn server_version(answer: &Answer) -> (r: Result<Option<u32>, Notice>)
    ensures
        r == version_of(*answer),
{
    match answer {
        Answer::Refused => Ok(None),
        Answer::Unreachable => Err(Notice::ServerUnreachable),
        Answer::WriteFailed => Err(Notice::ServerRequestFailed),
        Answer::Reply(b) => {
            if b.len() < 4 {
                return Err(Notice::ServerSilent);
            }
            if !is_okay(b.as_slice()) {
                return Err(Notice::ServerUnsupported);
            }
            if b.len() < 8 {
                return Err(Notice::ServerReply);
            }
            match bytes_number(b.as_slice(), 4, 8, true, 0xffff_ffff) {
                None => Err(Notice::ServerReply),
                Some(n) => {
                    if n == 0 || n > 16 || (b.len() as u64) < 8 + n {
                        Err(Notice::ServerReply)
                    } else {
                        match bytes_number(
                            b.as_slice(),
                            8,
                            8 + n as usize,
                            true,
                            0xffff_ffff,
                        ) {
                            None => Err(Notice::ServerVersion),
                            Some(v) => Ok(Some(v as u32)),
                        }
                    }
                },
            }
        },
    }
}

/// The outcome of opening a request on a fresh connection (the device-list
/// subscription): `Ok` when the server answered `OKAY`.
pub open spec fn request_status(answer: Answer) -> Result<(), Notice> {
    match answer {
        Answer::Refused => Err(Notice::TrackFailed),
        Answer::Unreachable => Err(Notice::TrackFailed),
        Answer::WriteFailed => Err(Notice::ServerRequestFailed),
        Answer::Reply(b) => if b@.len() < 4 {
            Err(Notice::ServerSilent)
        } else if b@.take(4) != okay() {
            Err(Notice::ServerUnsupported)
        } else {
            Ok(())
        },
    }
}

// ---------------------------------------------------------------------------
// Device-list notifications
// ---------------------------------------------------------------------------

/// The text of bytes with invalid UTF-8 replaced (`String::from_utf8_lossy`).
pub uninterp spec fn utf8_lossy(b: Seq<u8>) -> Seq<char>;

/// The text of a frame's bytes: the text they encode when they are valid
/// UTF-8, else their text with invalid sequences replaced.
pub open spec fn frame_text(b: Seq<u8>) -> Seq<char> {
    if valid_utf8(b) {
        decode_utf8(b)
    } else {
        utf8_lossy(b)
    }
}

/// Decodes bytes as UTF-8, replacing invalid sequences with U+FFFD, by
/// `String::from_utf8_lossy`. Claimed: the result is the named function of the
/// bytes, and bytes that are valid UTF-8 give the text they encode. Which
/// replacement characters stand for invalid bytes is not stated.
#[verifier::external_body]
fn lossy_text(b: &[u8]) -> (r: String)
    ensures
        r@ == utf8_lossy(b@),
        valid_utf8(b@) ==> r@ == decode_utf8(b@),
{
    String::from_utf8_lossy(b).into_owned()
}

/// Splits the bytes received so far into complete frames: whether every
/// length prefix read was well formed, the payloads of the complete frames in
/// order, and the bytes left over (an incomplete frame, or the frame whose
/// prefix was malformed).
pub open spec fn drain(p: Seq<u8>) -> (bool, Seq<Seq<u8>>, Seq<u8>)
    decreases p.len(),
{
    if p.len() < 4 {
        (true, seq![], p)
    } else {
        match bounded_value(byte_chars(p.take(4)), true, 0xffff_ffff) {
            None => (false, seq![], p),
            Some(n) => if p.len() < 4 + n {
                (true, seq![], p)
            } else {
                let (ok, fs, rest) = drain(p.skip(4 + n as int));
                (ok, seq![p.subrange(4, 4 + n as int)] + fs, rest)
            },
        }
    }
}

/// Most bytes that may wait for the rest of a frame.
pub const PENDING_LIMIT: usize = 131072;

/// What reading the subscription socket gave.
#[derive(Clone, Debug, PartialEq, Eq)]
pub enum Incoming {
    /// Some bytes.
    Data(Vec<u8>),
    /// The server closed the connection.
    Closed,
    /// Nothing arrived before the read timed out.
    Idle,
    /// Reading failed.
    Failed,
}

/// Reads the ADB server's device-list notifications; the device transport
/// and authentication stay with ADB.
pub struct Tracker {
    pending: Vec<u8>,
}

/// The outcome of one poll: its result and the bytes left waiting.
pub open spec fn poll_of(pending: Seq<u8>, incoming: Incoming) -> (
    Result<Option<Seq<DeviceView>>, Notice>,
    Seq<u8>,
) {
    match incoming {
        Incoming::Closed => (Err(Notice::ServerClosed), pending),
        Incoming::Failed => (Err(Notice::ServerClosed), pending),
        _ => {
            let p = match incoming {
                Incoming::Data(d) => pending + d@,
                _ => pending,
            };
            if p.len() > PENDING_LIMIT {
                (Err(Notice::TrackOverflow), p)
            } else {
                let (ok, fs, rest) = drain(p);
                if !ok {
                    (Err(Notice::TrackReply), rest)
                } else if fs.len() == 0 {
                    (Ok(None), rest)
                } else {
                    (Ok(Some(device_list(frame_text(fs.last())))), rest)
                }
            }
        },
    }
}

/// A view of a device list.
pub open spec fn devices_view(v: Seq<Device>) -> Seq<DeviceView> {
    v.map_values(|d: Device| d@)
}

impl Tracker {
    /// The bytes waiting for the rest of a frame.
    pub closed spec fn waiting(self) -> Seq<u8> {
        self.pending@
    }

    /// A subscription with nothing received yet.
    pub fn new() -> (r: Tracker)
        ensures
            r.waiting() == Seq::<u8>::empty(),
    {
        Tracker { pending: Vec::new() }
    }

    /// Takes what the socket gave and returns the latest complete device
    /// list, or `None` when no frame was completed.
    pub fn poll(&mut self, incoming: Incoming) -> (r: Result<Option<Vec<Device>>, Notice>)
        ensures
            ({
                let (res, rest) = poll_of(old(self).waiting(), incoming);
                &&& final(self).waiting() == rest
                &&& match res {
                    Ok(Some(ds)) => r matches Ok(Some(v)) && devices_view(v@) == ds,
                    Ok(None) => r matches Ok(None),
                    Err(n) => r == Err::<Option<Vec<Device>>, Notice>(n),
                }
            }),
    {
        let ghost inc = incoming;
        match incoming {
            Incoming::Closed => {
                return Err(Notice::ServerClosed);
            },
            Incoming::Failed => {
                return Err(Notice::ServerClosed);
            },
            Incoming::Idle => {},
            Incoming::Data(d) => {
                let mut i: usize = 0;
                let ghost before = self.pending@;
                while i < d.len()
                    invariant
                        i <= d@.len(),
                        self.pending@ == before + d@.take(i as int),
                    decreases d@.len() - i,
                {
                    self.pending.push(d[i]);
                    i = i + 1;
                    assert(self.pending@ =~= before + d@.take(i as int));
                }
                assert(d@.take(d@.len() as int) =~= d@);
            },
        }
        assert(self.pending@ == (match inc {
            Incoming::Data(d) => old(self).pending@ + d@,
            _ => old(self).pending@,
        }));
        if self.pending.len() > PENDING_LIMIT {
            return Err(Notice::TrackOverflow);
        }
        let ghost start = self.pending@;
        let mut latest: Option<Vec<Device>> = None;
        let ghost mut seen: Seq<Seq<u8>> = seq![];
        loop
            invariant
                self.pending@.len() <= PENDING_LIMIT,
                ({
                    let (ok0, fs0, r0) = drain(start);
                    let (ok1, fs1, r1) = drain(self.pending@);
                    &&& ok0 == ok1
                    &&& fs0 == seen + fs1
                    &&& r0 == r1
                }),
                start.len() <= PENDING_LIMIT,
                inc == incoming,
                inc !is Closed && inc !is Failed,
                start == (match inc {
                    Incoming::Data(d) => old(self).pending@ + d@,
                    _ => old(self).pending@,
                }),
                seen.len() == 0 ==> latest is None,
                seen.len() > 0 ==> (latest matches Some(v) && devices_view(v@) == device_list(
                    frame_text(seen.last()),
                )),
            ensures
                drain(self.pending@) == (true, Seq::<Seq<u8>>::empty(), self.pending@),
                ({
                    let (ok0, fs0, r0) = drain(start);
                    let (ok1, fs1, r1) = drain(self.pending@);
                    &&& ok0 == ok1
                    &&& fs0 == seen + fs1
                    &&& r0 == r1
                }),
                seen.len() == 0 ==> latest is None,
                seen.len() > 0 ==> (latest matches Some(v) && devices_view(v@) == device_list(
                    frame_text(seen.last()),
                )),
            decreases self.pending@.len(),
        {
            let p = &self.pending;
            if p.len() < 4 {
                break ;
            }
            let n = match bytes_number(p.as_slice(), 0, 4, true, 0xffff_ffff) {
                Some(n) => n,
                None => {
                    assert(p@.subrange(0, 4) =~= p@.take(4));
                    assert(drain(p@) == (false, Seq::<Seq<u8>>::empty(), p@));
                    assert(!drain(start).0);
                    assert(drain(start).2 == p@);
                    assert(start.len() <= PENDING_LIMIT);
                    assert(inc !is Closed && inc !is Failed);
                    assert(poll_of(old(self).waiting(), incoming).1 == p@);
                    return Err(Notice::TrackReply);
                },
            };
            assert(p@.subrange(0, 4) =~= p@.take(4));
            if (p.len() as u64) < 4 + n {
                break ;
            }
            let end = 4 + n as usize;
            let payload = &p.as_slice()[4..end];
            let ghost pl = p@.subrange(4, end as int);
            assert(payload@ =~= pl);
            let text = lossy_text(payload);
            let found = devices(text.as_str());
            latest = Some(found);
            let ghost old_p = p@;
            let mut rest: Vec<u8> = Vec::new();
            let mut k = end;
            while k < p.len()
                invariant
                    end <= k <= p@.len(),
                    rest@ == p@.subrange(end as int, k as int),
                decreases p@.len() - k,
            {
                rest.push(p[k]);
                k = k + 1;
                assert(rest@ =~= p@.subrange(end as int, k as int));
            }
            assert(rest@ =~= old_p.skip(end as int));
            proof {
                seen = seen.push(pl);
                let (ok1, fs1, r1) = drain(old_p.skip(end as int));
                assert(drain(old_p).1 =~= seq![pl] + fs1);
                assert(seen.last() == pl);
            }
            self.pending = rest;
        }
        let ghost (ok, fs, r0) = drain(start);
        assert(fs =~= seen + Seq::<Seq<u8>>::empty());
        assert(fs =~= seen);
        Ok(latest)
    }
}

// ---------------------------------------------------------------------------
// Paths and the version report of the executable
// ---------------------------------------------------------------------------

/// `\\?\` as characters.
pub open spec fn verbatim_prefix() -> Seq<char> {
    seq!['\\', '\\', '?', '\\']
}

/// `\\?\UNC\` as characters.
pub open spec fn verbatim_unc_prefix() -> Seq<char> {
    seq!['\\', '\\', '?', '\\', 'U', 'N', 'C', '\\']
}

/// A Windows path without the extended-length prefix that `canonicalize`
/// adds: `\\?\UNC\server\share` becomes `\\server\share`, `\\?\C:\…`
/// becomes `C:\…`; any other path, including `\\?\Volume{…}\…` whose prefix
/// cannot be dropped, stays as it is.
pub open spec fn plain_path(p: Seq<char>) -> Seq<char> {
    if starts_with(p, verbatim_unc_prefix()) {
        seq!['\\', '\\'] + p.skip(8)
    } else if starts_with(p, verbatim_prefix()) && p.len() >= 7 && ('a' <= p[4] <= 'z' || 'A'
        <= p[4] <= 'Z') && p[5] == ':' && p[6] == '\\' {
        p.skip(4)
    } else {
        p
    }
}

/// The path in the ordinary form shown to the user and saved in settings.
pub fn without_verbatim(path: &str) -> (r: String)
    ensures
        r@ == plain_path(path@),
{
    let v = chars_of(path);
    let unc: Vec<char> = vec!['\\', '\\', '?', '\\', 'U', 'N', 'C', '\\'];
    let pre: Vec<char> = vec!['\\', '\\', '?', '\\'];
    assert(unc@ =~= verbatim_unc_prefix());
    assert(pre@ =~= verbatim_prefix());
    if begins_with(&v, &unc) {
        let mut r = String::new();
        crate::text::push_char(&mut r, '\\');
        crate::text::push_char(&mut r, '\\');
        let rest = string_of(&v, 8, v.len());
        let mut out = r;
        push_str(&mut out, rest.as_str());
        assert(v@.subrange(8, v@.len() as int) =~= v@.skip(8));
        assert(out@ =~= seq!['\\', '\\'] + v@.skip(8));
        return out;
    }
    if begins_with(&v, &pre) && v.len() >= 7 && (('a' <= v[4] && v[4] <= 'z') || ('A' <= v[4]
        && v[4] <= 'Z')) && v[5] == ':' && v[6] == '\\' {
        let r = string_of(&v, 4, v.len());
        assert(v@.subrange(4, v@.len() as int) =~= v@.skip(4));
        return r;
    }
    let r = string_of(&v, 0, v.len());
    assert(v@.subrange(0, v@.len() as int) =~= v@);
    r
}

/// The first line of `adb version` before the protocol number.
pub open spec fn version_banner() -> Seq<char> {
    "Android Debug Bridge version 1.0."@
}

/// The protocol number in the first line of `adb version` output (`Android
/// Debug Bridge version 1.0.<protocol>`), if there is one.
pub open spec fn protocol_of(output: Seq<char>) -> Option<u32> {
    let ls = lines(output);
    if ls.len() == 0 || !starts_with(ls[0], version_banner()) {
        None
    } else {
        match bounded_value(trim(ls[0].skip(version_banner().len() as int)), false, 0xffff_ffff) {
            Some(v) => Some(v as u32),
            None => None,
        }
    }
}

/// The first two lines of `adb version` output joined by ` / `.
pub open spec fn version_summary(output: Seq<char>) -> Seq<char> {
    let ls = lines(output);
    if ls.len() == 0 {
        seq![]
    } else if ls.len() == 1 {
        ls[0]
    } else {
        ls[0] + " / "@ + ls[1]
    }
}

/// An ADB executable that reported its version.
pub struct Adb {
    pub path: String,
    pub protocol: u32,
    pub version: String,
}

/// An `adb` invocation: program, arguments, a line to write to its input,
/// and how many seconds it may take.
#[derive(Clone, Debug, PartialEq, Eq)]
pub struct Command {
    pub program: String,
    pub args: Vec<String>,
    pub input: Option<String>,
    pub seconds: u64,
}

/// The arguments as plain values.
pub open spec fn args_view(args: Seq<String>) -> Seq<Seq<char>> {
    args.map_values(|a: String| a@)
}

/// The options that direct `adb` to the default local server by name (ADB
/// classes only `localhost` as a local server, which it may start itself).
pub open spec fn server_options() -> Seq<Seq<char>> {
    seq!["-H"@, "localhost"@, "-P"@, "5037"@]
}

/// Whether the ADB tool of protocol `protocol` may work beside the server
/// found: none, or one of the same protocol version.
pub open spec fn compat_of(protocol: u32, server: Result<Option<u32>, Notice>) -> Result<
    (),
    Notice,
> {
    match server {
        Err(n) => Err(n),
        Ok(Some(v)) => if v != protocol {
            Err(Notice::VersionMismatch)
        } else {
            Ok(())
        },
        Ok(None) => Ok(()),
    }
}

/// Whether `c` runs `program` with the server options followed by `args`,
/// writing `input` to it, within the time allowed for a command.
pub open spec fn runs(c: Command, program: Seq<char>, args: Seq<Seq<char>>, input: Option<
    Seq<char>,
>) -> bool {
    &&& c.program@ == program
    &&& args_view(c.args@) == server_options() + args
    &&& match (c.input, input) {
        (Some(x), Some(y)) => x@ == y,
        (None, None) => true,
        _ => false,
    }
    &&& c.seconds == 12
}

/// The string slices as plain values.
pub open spec fn strs_view(args: Seq<&str>) -> Seq<Seq<char>> {
    args.map_values(|a: &str| a@)
}

/// An owned copy of a string slice.
fn owned(s: &str) -> (r: String)
    ensures
        r@ == s@,
{
    let mut r = String::new();
    push_str(&mut r, s);
    r
}

/// Whether `pair` printed its success message.
pub open spec fn pair_confirmed(output: Seq<char>) -> bool {
    contains_seq(output, "Successfully paired"@)
}

/// Whether `connect` reported the connection as made or already made.
pub open spec fn connect_confirmed(output: Seq<char>) -> bool {
    starts_with(output, "connected to "@) || starts_with(output, "already connected to "@)
}

/// Whether the list holds a device with this serial.
pub open spec fn listed(devices: Seq<Device>, serial: Seq<char>) -> bool {
    exists|i: int| 0 <= i < devices.len() && #[trigger] devices[i].serial@ == serial
}

impl Adb {
    /// Checks the file's name and kind before it is run.
    pub fn check_file(platform: Platform, file_name: Option<&str>, is_file: bool) -> (r: Result<
        (),
        Notice,
    >)
        ensures
            file_name == None::<&str> ==> (r matches Err(Notice::SelectFile(n)) && n@
                == executable_name(platform)),
            (file_name matches Some(f) && f@ == executable_name(platform) && is_file) ==> r
                is Ok,
            (file_name matches Some(f) && (f@ != executable_name(platform) || !is_file)) ==> (r
                matches Err(Notice::SelectFile(n)) && n@ == executable_name(platform)),
    {
        let expected = executable(platform);
        let ok = match file_name {
            Some(f) => {
                let a = chars_of(f);
                let b = chars_of(expected);
                same_chars(&a, &b)
            },
            None => false,
        };
        if ok && is_file {
            Ok(())
        } else {
            let mut n = String::new();
            push_str(&mut n, expected);
            Err(Notice::SelectFile(n))
        }
    }

    /// The tool at `path` given what `adb version` printed: refused
    /// (`NotAdb`) unless the first line names the protocol.
    fn read_version(path: String, output: &str) -> (r: Result<Adb, Notice>)
        ensures
            match protocol_of(output@) {
                Some(p) => r matches Ok(a) && a.path@ == path@ && a.protocol == p && a.version@
                    == version_summary(output@),
                None => r == Err::<Adb, Notice>(Notice::NotAdb),
            },
    {
        let v = chars_of(output);
        let ls = split_lines(&v);
        let ghost lv = ls@.map_values(|l: Vec<char>| l@);
        if ls.len() == 0 {
            return Err(Notice::NotAdb);
        }
        assert(lv[0] == ls@[0]@);
        let banner = chars_of("Android Debug Bridge version 1.0.");
        if !begins_with(&ls[0], &banner) {
            return Err(Notice::NotAdb);
        }
        let first = &ls[0];
        let mut rest: Vec<char> = Vec::new();
        let mut i = banner.len();
        while i < first.len()
            invariant
                banner@.len() <= i <= first@.len(),
                rest@ == first@.subrange(banner@.len() as int, i as int),
            decreases first@.len() - i,
        {
            rest.push(first[i]);
            i = i + 1;
            assert(rest@ =~= first@.subrange(banner@.len() as int, i as int));
        }
        assert(rest@ =~= first@.skip(banner@.len() as int));
        let (a, b) = trim_bounds(&rest);
        let mut number: Vec<char> = Vec::new();
        let mut k = a;
        while k < b
            invariant
                a <= k <= b <= rest@.len(),
                number@ == rest@.subrange(a as int, k as int),
            decreases b - k,
        {
            number.push(rest[k]);
            k = k + 1;
            assert(number@ =~= rest@.subrange(a as int, k as int));
        }
        let protocol = match radix_number(&number, false, 0xffff_ffff) {
            Some(p) => p as u32,
            None => return Err(Notice::NotAdb),
        };
        let mut version = string_of(&ls[0], 0, ls[0].len());
        assert(ls@[0]@.subrange(0, ls@[0]@.len() as int) =~= ls@[0]@);
        if ls.len() > 1 {
            push_str(&mut version, " / ");
            let second = string_of(&ls[1], 0, ls[1].len());
            assert(ls@[1]@.subrange(0, ls@[1]@.len() as int) =~= ls@[1]@);
            assert(lv[1] == ls@[1]@);
            push_str(&mut version, second.as_str());
        }
        Ok(Adb { path, protocol, version })
    }

    /// The tool at `path`, the file's path as resolved on disk (none when it
    /// could not be resolved), whose last component is `file_name` and which
    /// is a regular file when `is_file`; `output` is what `adb version`
    /// printed, run only on a file that passed the checks. Refused as missing
    /// (`AdbMissing`) when the path could not be resolved, as not the ADB
    /// executable (`SelectFile`) unless it is named as the platform's
    /// executable and is a file, and as no ADB (`NotAdb`) unless the first
    /// line of the output names the protocol.
    pub fn inspect(
        platform: Platform,
        path: Option<String>,
        file_name: Option<&str>,
        is_file: bool,
        output: Option<&str>,
    ) -> (r: Result<Adb, Notice>)
        ensures
            match path {
                None => r == Err::<Adb, Notice>(Notice::AdbMissing),
                Some(p) => if !(file_name matches Some(f) && f@ == executable_name(platform)
                    && is_file) {
                    r matches Err(Notice::SelectFile(n)) && n@ == executable_name(platform)
                } else {
                    match output {
                        None => r == Err::<Adb, Notice>(Notice::NotAdb),
                        Some(o) => match protocol_of(o@) {
                            Some(v) => r matches Ok(a) && a.path@ == p@ && a.protocol == v
                                && a.version@ == version_summary(o@),
                            None => r == Err::<Adb, Notice>(Notice::NotAdb),
                        },
                    }
                },
            },
    {
        let p = match path {
            Some(p) => p,
            None => {
                return Err(Notice::AdbMissing);
            },
        };
        match Adb::check_file(platform, file_name, is_file) {
            Err(n) => {
                return Err(n);
            },
            Ok(()) => {},
        }
        match output {
            Some(o) => Adb::read_version(p, o),
            None => Err(Notice::NotAdb),
        }
    }

    /// Refuses to work beside a running server of another protocol version;
    /// no running server, or one of the same version, is fine.
    pub fn compatible(&self, server: Result<Option<u32>, Notice>) -> (r: Result<(), Notice>)
        ensures
            match server {
                Err(n) => r == Err::<(), Notice>(n),
                Ok(Some(v)) => if v != self.protocol {
                    r == Err::<(), Notice>(Notice::VersionMismatch)
                } else {
                    r is Ok
                },
                Ok(None) => r is Ok,
            },
    {
        match server {
            Err(n) => Err(n),
            Ok(Some(v)) => if v != self.protocol {
                Err(Notice::VersionMismatch)
            } else {
                Ok(())
            },
            Ok(None) => Ok(()),
        }
    }
}

impl Adb {
    /// The command that runs this tool with `args` against the default local
    /// server, after checking that the server found is compatible.
    pub fn call(&self, server: Result<Option<u32>, Notice>, args: &[&str], input: Option<&str>) -> (r:
        Result<Command, Notice>)
        ensures
            match compat_of(self.protocol, server) {
                Err(n) => r == Err::<Command, Notice>(n),
                Ok(_) => r matches Ok(c) && runs(
                    c,
                    self.path@,
                    strs_view(args@),
                    match input {
                        Some(x) => Some(x@),
                        None => None,
                    },
                ),
            },
    {
        match self.compatible(server) {
            Err(n) => {
                return Err(n);
            },
            Ok(()) => {},
        }
        let mut full: Vec<String> = Vec::new();
        full.push(owned("-H"));
        full.push(owned("localhost"));
        full.push(owned("-P"));
        full.push(owned("5037"));
        assert(args_view(full@) =~= server_options());
        let mut i: usize = 0;
        while i < args.len()
            invariant
                i <= args@.len(),
                args_view(full@) == server_options() + strs_view(args@).take(i as int),
            decreases args@.len() - i,
        {
            let ghost before = full@;
            full.push(owned(args[i]));
            assert(args_view(full@) =~= args_view(before).push(args@[i as int]@));
            i = i + 1;
            assert(strs_view(args@).take(i as int) =~= strs_view(args@).take(i - 1).push(
                args@[i - 1]@,
            ));
        }
        assert(strs_view(args@).take(args@.len() as int) =~= strs_view(args@));
        let input = match input {
            Some(x) => Some(owned(x)),
            None => None,
        };
        let program = owned(self.path.as_str());
        Ok(Command { program, args: full, input, seconds: 12 })
    }

    /// The command that lists the attached devices (`devices -l`); its output
    /// is read by `devices`.
    pub fn list(&self, server: Result<Option<u32>, Notice>) -> (r: Result<Command, Notice>)
        ensures
            match compat_of(self.protocol, server) {
                Err(n) => r == Err::<Command, Notice>(n),
                Ok(_) => r matches Ok(c) && runs(c, self.path@, seq!["devices"@, "-l"@], None),
            },
    {
        let args: Vec<&str> = vec!["devices", "-l"];
        assert(strs_view(args@) =~= seq!["devices"@, "-l"@]);
        self.call(server, args.as_slice(), None)
    }

    /// The command that lists wireless debugging services found over mDNS
    /// (`mdns services`); its output is read by `services`.
    pub fn discover(&self, server: Result<Option<u32>, Notice>) -> (r: Result<Command, Notice>)
        ensures
            match compat_of(self.protocol, server) {
                Err(n) => r == Err::<Command, Notice>(n),
                Ok(_) => r matches Ok(c) && runs(c, self.path@, seq!["mdns"@, "services"@], None),
            },
    {
        let args: Vec<&str> = vec!["mdns", "services"];
        assert(strs_view(args@) =~= seq!["mdns"@, "services"@]);
        self.call(server, args.as_slice(), None)
    }

    /// The command that pairs with the phone at `address` using the six-digit
    /// `code`: the address and code are checked first, the code is written to
    /// the command's input, never placed among its arguments.
    pub fn pair(&self, server: Result<Option<u32>, Notice>, address: &str, code: &str) -> (r:
        Result<Command, Notice>)
        ensures
            match endpoint_of(address@) {
                Err(n) => r == Err::<Command, Notice>(n),
                Ok(a) => match pairing_code_of(code@) {
                    Err(n) => r == Err::<Command, Notice>(n),
                    Ok(c) => match compat_of(self.protocol, server) {
                        Err(n) => r == Err::<Command, Notice>(n),
                        Ok(_) => r matches Ok(cmd) && runs(
                            cmd,
                            self.path@,
                            seq!["pair"@, endpoint_text(a)],
                            Some(c),
                        ),
                    },
                },
            },
    {
        let a = match endpoint(address) {
            Ok(a) => a,
            Err(n) => {
                return Err(n);
            },
        };
        let text = endpoint_string(&a);
        let c = match pairing_code(code) {
            Ok(c) => c,
            Err(n) => {
                return Err(n);
            },
        };
        let args: Vec<&str> = vec!["pair", text.as_str()];
        assert(strs_view(args@) =~= seq!["pair"@, endpoint_text(a)]);
        self.call(server, args.as_slice(), Some(c.as_str()))
    }

    /// Whether the output of the pairing command confirms the pairing.
    pub fn paired(output: &str) -> (r: Result<(), Notice>)
        ensures
            pair_confirmed(output@) ==> r is Ok,
            !pair_confirmed(output@) ==> r == Err::<(), Notice>(Notice::NotPaired),
    {
        let v = chars_of(output);
        let p = chars_of("Successfully paired");
        if contains(&v, &p) {
            Ok(())
        } else {
            Err(Notice::NotPaired)
        }
    }

    /// The command that connects to the phone's wireless debugging address.
    pub fn connect(&self, server: Result<Option<u32>, Notice>, address: &str) -> (r: Result<
        Command,
        Notice,
    >)
        ensures
            match endpoint_of(address@) {
                Err(n) => r == Err::<Command, Notice>(n),
                Ok(a) => match compat_of(self.protocol, server) {
                    Err(n) => r == Err::<Command, Notice>(n),
                    Ok(_) => r matches Ok(cmd) && runs(
                        cmd,
                        self.path@,
                        seq!["connect"@, endpoint_text(a)],
                        None,
                    ),
                },
            },
    {
        let a = match endpoint(address) {
            Ok(a) => a,
            Err(n) => {
                return Err(n);
            },
        };
        let text = endpoint_string(&a);
        let args: Vec<&str> = vec!["connect", text.as_str()];
        assert(strs_view(args@) =~= seq!["connect"@, endpoint_text(a)]);
        self.call(server, args.as_slice(), None)
    }

    /// Whether the output of the connect command confirms the connection.
    pub fn connected(output: &str) -> (r: Result<(), Notice>)
        ensures
            connect_confirmed(output@) ==> r is Ok,
            !connect_confirmed(output@) ==> r == Err::<(), Notice>(Notice::NotConnected),
    {
        let v = chars_of(output);
        let a = chars_of("connected to ");
        let b = chars_of("already connected to ");
        if begins_with(&v, &a) || begins_with(&v, &b) {
            Ok(())
        } else {
            Err(Notice::NotConnected)
        }
    }

    /// Whether `serial` may be disconnected: a device of the current list
    /// whose serial is a network one.
    pub fn disconnectable(devices: &[Device], serial: &str) -> (r: bool)
        ensures
            r == (listed(devices@, serial@) && is_wireless(serial@)),
    {
        let s = chars_of(serial);
        let mut found = false;
        let mut i: usize = 0;
        while i < devices.len()
            invariant
                i <= devices@.len(),
                s@ == serial@,
                found == exists|j: int| 0 <= j < i && #[trigger] devices@[j].serial@ == serial@,
            decreases devices@.len() - i,
        {
            let d = chars_of(devices[i].serial.as_str());
            if same_chars(&d, &s) {
                found = true;
            }
            i = i + 1;
        }
        found && wireless(serial)
    }

    /// The command that disconnects one wireless device: only a device of the
    /// current list whose serial is a network one; USB devices and the
    /// disconnect-all form are never requested.
    pub fn disconnect(
        &self,
        devices: &[Device],
        server: Result<Option<u32>, Notice>,
        serial: &str,
    ) -> (r: Result<Command, Notice>)
        ensures
            !(listed(devices@, serial@) && is_wireless(serial@)) ==> r == Err::<Command, Notice>(
                Notice::NotListedWireless,
            ),
            (listed(devices@, serial@) && is_wireless(serial@)) ==> match compat_of(
                self.protocol,
                server,
            ) {
                Err(n) => r == Err::<Command, Notice>(n),
                Ok(_) => r matches Ok(cmd) && runs(cmd, self.path@, seq!["disconnect"@, serial@], None),
            },
    {
        if !Adb::disconnectable(devices, serial) {
            return Err(Notice::NotListedWireless);
        }
        let args: Vec<&str> = vec!["disconnect", serial];
        assert(strs_view(args@) =~= seq!["disconnect"@, serial@]);
        self.call(server, args.as_slice(), None)
    }

    /// Opens the device-list subscription (`host:track-devices-l`) once the
    /// server is known to be compatible and has answered the request.
    pub fn track(&self, server: Result<Option<u32>, Notice>, answer: &Answer) -> (r: Result<
        Tracker,
        Notice,
    >)
        ensures
            match compat_of(self.protocol, server) {
                Err(n) => r matches Err(e) && e == n,
                Ok(_) => match request_status(*answer) {
                    Err(n) => r matches Err(e) && e == n,
                    Ok(_) => r matches Ok(t) && t.waiting() == Seq::<u8>::empty(),
                },
            },
    {
        match self.compatible(server) {
            Err(n) => {
                return Err(n);
            },
            Ok(()) => {},
        }
        match answer {
            Answer::Refused => Err(Notice::TrackFailed),
            Answer::Unreachable => Err(Notice::TrackFailed),
            Answer::WriteFailed => Err(Notice::ServerRequestFailed),
            Answer::Reply(b) => {
                if b.len() < 4 {
                    Err(Notice::ServerSilent)
                } else if !is_okay(b.as_slice()) {
                    Err(Notice::ServerUnsupported)
                } else {
                    Ok(Tracker::new())
                }
            },
        }
    }
}

/// Frames survive arbitrary chunking: bytes that arrive in two parts yield
/// the same frames, in the same order, with the same bytes left over, as the
/// same bytes arriving at once.
pub proof fn lemma_frames_survive_chunks(a: Seq<u8>, b: Seq<u8>)
    requires
        drain(a).0,
    ensures
        ({
            let (ok1, fs1, r1) = drain(a);
            let (ok2, fs2, r2) = drain(r1 + b);
            drain(a + b) == (ok2, fs1 + fs2, r2)
        }),
    decreases a.len(),
{
    let ab = a + b;
    if a.len() < 4 {
        let (ok2, fs2, r2) = drain(a + b);
        assert(seq![] + fs2 =~= fs2);
    } else {
        assert(ab.take(4) =~= a.take(4));
        match bounded_value(byte_chars(a.take(4)), true, 0xffff_ffff) {
            None => {},
            Some(n) => {
                if a.len() < 4 + n {
                    let (ok2, fs2, r2) = drain(a + b);
                    assert(seq![] + fs2 =~= fs2);
                } else {
                    let rest = a.skip(4 + n as int);
                    lemma_frames_survive_chunks(rest, b);
                    assert(ab.skip(4 + n as int) =~= rest + b);
                    assert(ab.subrange(4, 4 + n as int) =~= a.subrange(4, 4 + n as int));
                    let (ok1, fs1, r1) = drain(rest);
                    let (ok2, fs2, r2) = drain(r1 + b);
                    assert(seq![a.subrange(4, 4 + n as int)] + (fs1 + fs2) =~= (seq![
                        a.subrange(4, 4 + n as int),
                    ] + fs1) + fs2);
                }
            },
        }
    }
}

/// The byte of the small hexadecimal digit `d`.
pub open spec fn hex_byte(d: nat) -> u8 {
    digit_char(d) as u8
}

/// A length below 0x10000 is written as exactly four hexadecimal digits.
proof fn lemma_prefix_digits(n: nat)
    requires
        n <= 0xffff,
    ensures
        length_prefix(n) == seq![
            hex_byte(n / 16 / 16 / 16),
            hex_byte(n / 16 / 16 % 16),
            hex_byte(n / 16 % 16),
            hex_byte(n % 16),
        ],
{
    reveal_with_fuel(hexadecimal, 5);
    let h = hexadecimal(n);
    if n < 16 {
        assert(h =~= seq![digit_char(n)]);
    } else if n < 256 {
        assert(h =~= seq![digit_char(n / 16), digit_char(n % 16)]);
    } else if n < 4096 {
        assert(h =~= seq![digit_char(n / 16 / 16), digit_char(n / 16 % 16), digit_char(n % 16)]);
    } else {
        assert(h =~= seq![
            digit_char(n / 16 / 16 / 16),
            digit_char(n / 16 / 16 % 16),
            digit_char(n / 16 % 16),
            digit_char(n % 16),
        ]);
    }
    assert(length_prefix(n) =~= seq![
        hex_byte(n / 16 / 16 / 16),
        hex_byte(n / 16 / 16 % 16),
        hex_byte(n / 16 % 16),
        hex_byte(n % 16),
    ]);
}

/// The four-digit length prefix reads back as the length.
proof fn lemma_prefix_value(n: nat)
    requires
        n <= 0xffff,
    ensures
        length_prefix(n).len() == 4,
        bounded_value(byte_chars(length_prefix(n)), true, 0xffff_ffff) == Some(n),
{
    lemma_prefix_digits(n);
    let s = byte_chars(length_prefix(n));
    let q1 = n / 16;
    let q2 = q1 / 16;
    let (a, b, c, d) = (q2 / 16, q2 % 16, q1 % 16, n % 16);
    assert(s =~= seq![digit_char(a), digit_char(b), digit_char(c), digit_char(d)]);
    assert(digit_of(s[0], true) == Some(a));
    assert(digit_of(s[1], true) == Some(b));
    assert(digit_of(s[2], true) == Some(c));
    assert(digit_of(s[3], true) == Some(d));
    assert(unsigned_digits(s) == s);
    assert(all_digits(s, true));
    assert(digits_value(s, 0, 0, true) == 0);
    assert(digits_value(s, 0, 1, true) == a);
    assert(digits_value(s, 0, 2, true) == a * 16 + b);
    assert(digits_value(s, 0, 3, true) == (a * 16 + b) * 16 + c);
    assert(digits_value(s, 0, 4, true) == ((a * 16 + b) * 16 + c) * 16 + d);
    assert(a * 16 + b == q2);
    assert(q2 * 16 + c == q1);
    assert(q1 * 16 + d == n);
}

/// A frame as written is read back whole: the notification reader takes a
/// frame whose payload is shorter than 0x10000 bytes as that payload, and
/// then reads on in the bytes after it as if they had come alone.
pub proof fn lemma_frame_read_back(x: Seq<u8>, y: Seq<u8>)
    requires
        x.len() <= 0xffff,
    ensures
        ({
            let (ok, fs, rest) = drain(y);
            drain(frame(x) + y) == (ok, seq![x] + fs, rest)
        }),
{
    let n = x.len();
    lemma_prefix_value(n);
    let p = frame(x) + y;
    assert(p.take(4) =~= length_prefix(n));
    assert(p.skip(4 + n as int) =~= y);
    assert(p.subrange(4, 4 + n as int) =~= x);
}

/// A poll reports the most recent device list: when what is waiting and what
/// arrives end with a complete frame `f` after text that itself splits into
/// whole frames, the list returned is the one of `f`, whatever the earlier
/// frames held, and nothing is left waiting.
pub proof fn lemma_poll_reports_latest(pending: Seq<u8>, data: Vec<u8>, x: Seq<u8>, f: Seq<u8>)
    requires
        pending + data@ == x + frame(f),
        drain(x).0,
        drain(x).2.len() == 0,
        f.len() <= 0xffff,
        (pending + data@).len() <= PENDING_LIMIT,
    ensures
        poll_of(pending, Incoming::Data(data)) == (
            Ok::<Option<Seq<DeviceView>>, Notice>(Some(device_list(frame_text(f)))),
            Seq::<u8>::empty(),
        ),
{
    lemma_frames_survive_chunks(x, frame(f));
    let none = Seq::<u8>::empty();
    lemma_frame_read_back(f, none);
    assert(drain(none) == (true, Seq::<Seq<u8>>::empty(), none));
    assert(drain(x).2 + frame(f) =~= frame(f) + none);
    assert(seq![f] + Seq::<Seq<u8>>::empty() =~= seq![f]);
    let fs = drain(x).1 + seq![f];
    assert(drain(x + frame(f)) == (true, fs, none));
    assert(fs.last() == f);
}

/// A control character (`char::is_control`: U+0000–U+001F and U+007F–U+009F).
pub open spec fn is_control(c: char) -> bool {
    (c as u32) <= 0x1f || 0x7f <= (c as u32) <= 0x9f
}

/// Whether a line may be written to a command's input: at most 64 bytes and
/// no control characters, so that it fits the pipe and stays one line.
pub open spec fn input_fits(s: Seq<char>) -> bool {
    crate::model::utf8_len(s) <= 64 && forall|i: int| 0 <= i < s.len() ==> !is_control(#[trigger] s[i])
}

/// Whether the line for a command's input is acceptable; no input is.
pub fn input_acceptable(input: Option<&str>) -> (r: bool)
    ensures
        r == (match input {
            Some(s) => input_fits(s@),
            None => true,
        }),
{
    match input {
        None => true,
        Some(s) => {
            let v = chars_of(s);
            let mut i: usize = 0;
            while i < v.len()
                invariant
                    i <= v@.len(),
                    v@ == s@,
                    input == Some(s),
                    forall|j: int| 0 <= j < i ==> !is_control(#[trigger] v@[j]),
                decreases v@.len() - i,
            {
                let n = v[i] as u32;
                if n <= 0x1f || (0x7f <= n && n <= 0x9f) {
                    assert(is_control(s@[i as int]));
                    return false;
                }
                i = i + 1;
            }
            assert(v@.skip(0) =~= v@);
            crate::model::utf8_len_at_most(&v, 0, 64)
        },
    }
}

} // verus!
