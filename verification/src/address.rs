//! IP socket addresses: the textual syntax accepted for `IP:port` (IPv4
//! dotted quads, bracketed IPv6 with an optional `%scope`) and the canonical
//! text written back. The syntax and the written form are those of the
//! standard library's `SocketAddr`.
use vstd::prelude::*;

verus! {

/// An IPv4 address (four octets) or an IPv6 address (eight 16-bit groups).
#[derive(Clone, Copy, Debug, PartialEq, Eq, Structural)]
pub enum IpAddress {
    V4(u8, u8, u8, u8),
    V6(u16, u16, u16, u16, u16, u16, u16, u16),
}

/// A socket address: IP, port and, for IPv6, the scope id (0 when absent).
#[derive(Clone, Copy, Debug, PartialEq, Eq, Structural)]
pub struct Endpoint {
    pub ip: IpAddress,
    pub port: u16,
    pub scope_id: u32,
}

impl Endpoint {
    /// The port.
    pub fn port(&self) -> (r: u16)
        ensures
            r == self.port,
    {
        self.port
    }

    /// The IP address.
    pub fn ip(&self) -> (r: IpAddress)
        ensures
            r == self.ip,
    {
        self.ip
    }
}

/// Value of a digit character in base 16 (`hex`) or 10.
pub open spec fn digit_of(c: char, hex: bool) -> Option<nat> {
    let n = c as u32;
    if 48 <= n <= 57 {
        Some((n - 48) as nat)
    } else if hex && 97 <= n <= 102 {
        Some((n - 87) as nat)
    } else if hex && 65 <= n <= 70 {
        Some((n - 55) as nat)
    } else {
        None
    }
}

/// The base: 16 or 10.
pub open spec fn base(hex: bool) -> nat {
    if hex {
        16
    } else {
        10
    }
}

/// Number of consecutive digits of `s` from `pos`.
pub open spec fn digit_run(s: Seq<char>, pos: int, hex: bool) -> nat
    decreases s.len() - pos,
{
    if 0 <= pos < s.len() && digit_of(s[pos], hex) is Some {
        1 + digit_run(s, pos + 1, hex)
    } else {
        0
    }
}

/// Value of the `n` digits of `s` from `pos`.
pub open spec fn digits_value(s: Seq<char>, pos: int, n: nat, hex: bool) -> nat
    decreases n,
{
    if n == 0 {
        0
    } else {
        digits_value(s, pos, (n - 1) as nat, hex) * base(hex) + match digit_of(
            s[pos + n - 1],
            hex,
        ) {
            Some(d) => d,
            None => 0,
        }
    }
}

/// Reads all digits from `pos`: none when there is no digit, more than
/// `max` digits (when a maximum is given), a value above `limit`, or (unless
/// allowed) a leading zero before further digits; otherwise the value and the
/// position after the digits.
pub open spec fn read_number(
    s: Seq<char>,
    pos: int,
    hex: bool,
    max: Option<nat>,
    zero_ok: bool,
    limit: nat,
) -> Option<(nat, int)> {
    let k = digit_run(s, pos, hex);
    let v = digits_value(s, pos, k, hex);
    if k == 0 {
        None
    } else if max matches Some(m) && k > m {
        None
    } else if v > limit {
        None
    } else if !zero_ok && s[pos] == '0' && k > 1 {
        None
    } else {
        Some((v, pos + k))
    }
}

/// An IPv4 octet.
pub open spec fn read_octet(s: Seq<char>, pos: int) -> Option<(nat, int)> {
    read_number(s, pos, false, Some(3), false, 255)
}

/// An octet after a `.`.
pub open spec fn read_dot_octet(s: Seq<char>, pos: int) -> Option<(nat, int)> {
    if 0 <= pos < s.len() && s[pos] == '.' {
        read_octet(s, pos + 1)
    } else {
        None
    }
}

/// A dotted-quad IPv4 address from `pos`.
pub open spec fn read_ipv4(s: Seq<char>, pos: int) -> Option<(Seq<nat>, int)> {
    match read_octet(s, pos) {
        None => None,
        Some((a, p1)) => match read_dot_octet(s, p1) {
            None => None,
            Some((b, p2)) => match read_dot_octet(s, p2) {
                None => None,
                Some((c, p3)) => match read_dot_octet(s, p3) {
                    None => None,
                    Some((d, p4)) => Some((seq![a, b, c, d], p4)),
                },
            },
        },
    }
}

/// `inner` at `pos`, after a `:` unless it is the first group (`i == 0`).
pub open spec fn after_colon(s: Seq<char>, pos: int, i: nat) -> Option<int> {
    if i == 0 {
        Some(pos)
    } else if 0 <= pos < s.len() && s[pos] == ':' {
        Some(pos + 1)
    } else {
        None
    }
}

/// An embedded IPv4 address as the `i`-th group.
pub open spec fn read_group_ipv4(s: Seq<char>, pos: int, i: nat) -> Option<(Seq<nat>, int)> {
    match after_colon(s, pos, i) {
        None => None,
        Some(p) => read_ipv4(s, p),
    }
}

/// A hexadecimal group of at most four digits as the `i`-th group.
pub open spec fn read_group_hex(s: Seq<char>, pos: int, i: nat) -> Option<(nat, int)> {
    match after_colon(s, pos, i) {
        None => None,
        Some(p) => read_number(s, p, true, Some(4), true, 0xffff),
    }
}

/// Reads up to `limit` colon-separated groups from group `i` on; an IPv4
/// address may stand for the last two. Gives the groups read (after
/// `acc`), the position reached and whether an IPv4 address ended them.
pub open spec fn read_groups(s: Seq<char>, pos: int, i: nat, limit: nat, acc: Seq<nat>) -> (
    Seq<nat>,
    int,
    bool,
)
    decreases limit - i,
{
    if i >= limit {
        (acc, pos, false)
    } else if i + 1 < limit && read_group_ipv4(s, pos, i) is Some {
        let (q, p) = read_group_ipv4(s, pos, i)->0;
        (acc + seq![q[0] * 256 + q[1], q[2] * 256 + q[3]], p, true)
    } else {
        match read_group_hex(s, pos, i) {
            None => (acc, pos, false),
            Some((g, p)) => read_groups(s, p, i + 1, limit, acc.push(g)),
        }
    }
}

/// An IPv6 address from `pos`: up to eight groups, or a head and a tail
/// around one `::` that stands for at least one zero group.
pub open spec fn read_ipv6(s: Seq<char>, pos: int) -> Option<(Seq<nat>, int)> {
    let (head, p1, v4) = read_groups(s, pos, 0, 8, seq![]);
    if head.len() == 8 {
        Some((head, p1))
    } else if v4 {
        None
    } else if !(0 <= p1 && p1 + 1 < s.len() && s[p1] == ':' && s[p1 + 1] == ':') {
        None
    } else {
        let limit = (8 - (head.len() + 1)) as nat;
        let (tail, p2, _) = read_groups(s, p1 + 2, 0, limit, seq![]);
        Some((head + Seq::new((8 - head.len() - tail.len()) as nat, |j: int| 0nat) + tail, p2))
    }
}

/// The IPv4 address of four octets.
pub open spec fn ipv4_of(q: Seq<nat>) -> IpAddress {
    IpAddress::V4(q[0] as u8, q[1] as u8, q[2] as u8, q[3] as u8)
}

/// The IPv6 address of eight groups.
pub open spec fn ipv6_of(g: Seq<nat>) -> IpAddress {
    IpAddress::V6(
        g[0] as u16,
        g[1] as u16,
        g[2] as u16,
        g[3] as u16,
        g[4] as u16,
        g[5] as u16,
        g[6] as u16,
        g[7] as u16,
    )
}

/// An optional `%scope` at `p`: the scope id (0 when absent or malformed)
/// and the position after it.
pub open spec fn scope_part(s: Seq<char>, p: int) -> (nat, int) {
    if 0 <= p < s.len() && s[p] == '%' {
        match read_number(s, p + 1, false, None, true, 0xffff_ffff) {
            Some((v, e)) => (v, e),
            None => (0, p),
        }
    } else {
        (0, p)
    }
}

/// The socket address that the whole of `s` spells, if any: `a.b.c.d:port`
/// or `[ipv6]:port` or `[ipv6%scope]:port`.
pub open spec fn parse_socket_addr(s: Seq<char>) -> Option<Endpoint> {
    match read_ipv4(s, 0) {
        Some((q, p)) => if 0 <= p < s.len() && s[p] == ':' {
            match read_number(s, p + 1, false, None, true, 0xffff) {
                Some((port, e)) => if e == s.len() {
                    Some(Endpoint { ip: ipv4_of(q), port: port as u16, scope_id: 0 })
                } else {
                    None
                },
                None => None,
            }
        } else {
            None
        },
        None => if 0 < s.len() && s[0] == '[' {
            match read_ipv6(s, 1) {
                Some((g, p)) => {
                    let (scope, q) = scope_part(s, p);
                    if 0 <= q && q + 1 < s.len() && s[q] == ']' && s[q + 1] == ':' {
                        match read_number(s, q + 2, false, None, true, 0xffff) {
                            Some((port, e)) => if e == s.len() {
                                Some(
                                    Endpoint {
                                        ip: ipv6_of(g),
                                        port: port as u16,
                                        scope_id: scope as u32,
                                    },
                                )
                            } else {
                                None
                            },
                            None => None,
                        }
                    } else {
                        None
                    }
                },
                None => None,
            }
        } else {
            None
        },
    }
}

/// The IP address that the whole of `s` spells, if any.
pub open spec fn parse_ip(s: Seq<char>) -> Option<IpAddress> {
    match read_ipv4(s, 0) {
        Some((q, p)) => if p == s.len() {
            Some(ipv4_of(q))
        } else {
            None
        },
        None => match read_ipv6(s, 0) {
            Some((g, p)) => if p == s.len() {
                Some(ipv6_of(g))
            } else {
                None
            },
            None => None,
        },
    }
}

/// `0.0.0.0` or `::`.
pub open spec fn is_unspecified(ip: IpAddress) -> bool {
    match ip {
        IpAddress::V4(a, b, c, d) => a == 0 && b == 0 && c == 0 && d == 0,
        IpAddress::V6(a, b, c, d, e, f, g, h) => a == 0 && b == 0 && c == 0 && d == 0 && e == 0
            && f == 0 && g == 0 && h == 0,
    }
}

/// `224.0.0.0/4` or `ff00::/8`.
pub open spec fn is_multicast(ip: IpAddress) -> bool {
    match ip {
        IpAddress::V4(a, _, _, _) => 224 <= a <= 239,
        IpAddress::V6(a, _, _, _, _, _, _, _) => a >= 0xff00,
    }
}

/// Whether an IP address is unspecified.
pub fn ip_is_unspecified(ip: &IpAddress) -> (r: bool)
    ensures
        r == is_unspecified(*ip),
{
    match ip {
        IpAddress::V4(a, b, c, d) => *a == 0 && *b == 0 && *c == 0 && *d == 0,
        IpAddress::V6(a, b, c, d, e, f, g, h) => *a == 0 && *b == 0 && *c == 0 && *d == 0 && *e
            == 0 && *f == 0 && *g == 0 && *h == 0,
    }
}

/// Whether an IP address is a multicast address.
pub fn ip_is_multicast(ip: &IpAddress) -> (r: bool)
    ensures
        r == is_multicast(*ip),
{
    match ip {
        IpAddress::V4(a, _, _, _) => 224 <= *a && *a <= 239,
        IpAddress::V6(a, _, _, _, _, _, _, _) => *a >= 0xff00,
    }
}

/// The character of a digit value below 16 (small letters).
pub open spec fn digit_char(d: nat) -> char {
    if d < 10 {
        ((48 + d) as u8) as char
    } else {
        ((87 + d) as u8) as char
    }
}

/// Decimal digits of `n`, without leading zeros.
pub open spec fn decimal(n: nat) -> Seq<char>
    decreases n,
{
    if n < 10 {
        seq![digit_char(n)]
    } else {
        decimal(n / 10).push(digit_char(n % 10))
    }
}

/// Hexadecimal digits of `n` in small letters, without leading zeros.
pub open spec fn hexadecimal(n: nat) -> Seq<char>
    decreases n,
{
    if n < 16 {
        seq![digit_char(n)]
    } else {
        hexadecimal(n / 16).push(digit_char(n % 16))
    }
}

/// The groups as hexadecimal numbers separated by `:`.
pub open spec fn join_groups(g: Seq<u16>) -> Seq<char>
    decreases g.len(),
{
    if g.len() == 0 {
        seq![]
    } else if g.len() == 1 {
        hexadecimal(g[0] as nat)
    } else {
        hexadecimal(g[0] as nat) + seq![':'] + join_groups(g.drop_first())
    }
}

/// The groups of an IPv6 address.
pub open spec fn groups(ip: IpAddress) -> Seq<u16> {
    match ip {
        IpAddress::V6(a, b, c, d, e, f, g, h) => seq![a, b, c, d, e, f, g, h],
        _ => seq![],
    }
}

/// The longest run of zero groups from position `i` on, given the run in
/// progress (`cur`) and the longest so far (`best`), each as (start,
/// length); an earlier run wins a tie.
pub open spec fn zero_run(g: Seq<u16>, i: int, cur: (int, int), best: (int, int)) -> (int, int)
    decreases g.len() - i,
{
    if i >= g.len() || i < 0 {
        best
    } else if g[i] == 0 {
        let c = if cur.1 == 0 {
            (i, 1int)
        } else {
            (cur.0, cur.1 + 1)
        };
        zero_run(g, i + 1, c, if c.1 > best.1 { c } else { best })
    } else {
        zero_run(g, i + 1, (0, 0), best)
    }
}

/// Text of an IPv4 address: four decimal octets separated by dots.
pub open spec fn ipv4_text(a: u8, b: u8, c: u8, d: u8) -> Seq<char> {
    decimal(a as nat) + seq!['.'] + decimal(b as nat) + seq!['.'] + decimal(c as nat) + seq!['.']
        + decimal(d as nat)
}

/// Text of an IP address. An IPv6 address mapping an IPv4 one is written
/// `::ffff:a.b.c.d`; otherwise its longest run of two or more zero groups
/// (the first of equals) is written `::`.
pub open spec fn ip_text(ip: IpAddress) -> Seq<char> {
    match ip {
        IpAddress::V4(a, b, c, d) => ipv4_text(a, b, c, d),
        IpAddress::V6(s0, s1, s2, s3, s4, s5, s6, s7) => if s0 == 0 && s1 == 0 && s2 == 0 && s3
            == 0 && s4 == 0 && s5 == 0xffff {
            "::ffff:"@ + ipv4_text(
                (s6 / 256) as u8,
                (s6 % 256) as u8,
                (s7 / 256) as u8,
                (s7 % 256) as u8,
            )
        } else {
            let g = groups(ip);
            let z = zero_run(g, 0, (0, 0), (0, 0));
            if z.1 > 1 {
                join_groups(g.take(z.0)) + "::"@ + join_groups(g.skip(z.0 + z.1))
            } else {
                join_groups(g)
            }
        },
    }
}

/// Text of a socket address: `ip:port`, `[ipv6]:port`, or `[ipv6%scope]:port`
/// when the scope id is not 0.
pub open spec fn endpoint_text(e: Endpoint) -> Seq<char> {
    match e.ip {
        IpAddress::V4(..) => ip_text(e.ip) + seq![':'] + decimal(e.port as nat),
        IpAddress::V6(..) => if e.scope_id == 0 {
            seq!['['] + ip_text(e.ip) + seq![']', ':'] + decimal(e.port as nat)
        } else {
            seq!['['] + ip_text(e.ip) + seq!['%'] + decimal(e.scope_id as nat) + seq![']', ':']
                + decimal(e.port as nat)
        },
    }
}

// ---------------------------------------------------------------------------
// Reading
// ---------------------------------------------------------------------------

/// Value of a digit character.
fn digit(c: char, hex: bool) -> (r: Option<u64>)
    ensures
        match digit_of(c, hex) {
            Some(d) => r == Some(d as u64),
            None => r is None,
        },
{
    let n = c as u32;
    if 48 <= n && n <= 57 {
        Some((n - 48) as u64)
    } else if hex && 97 <= n && n <= 102 {
        Some((n - 87) as u64)
    } else if hex && 65 <= n && n <= 70 {
        Some((n - 55) as u64)
    } else {
        None
    }
}

pub proof fn lemma_digits_value_step(s: Seq<char>, pos: int, n: nat, hex: bool)
    ensures
        digits_value(s, pos, n + 1, hex) >= digits_value(s, pos, n, hex),
{
    let v = digits_value(s, pos, n, hex);
    let b = base(hex);
    assert(v * b >= v) by (nonlinear_arith)
        requires
            b >= 1,
            v >= 0,
    ;
}

pub proof fn lemma_digits_value_mono(s: Seq<char>, pos: int, m: nat, n: nat, hex: bool)
    requires
        m <= n,
    ensures
        digits_value(s, pos, n, hex) >= digits_value(s, pos, m, hex),
    decreases n - m,
{
    if m < n {
        lemma_digits_value_mono(s, pos, m, (n - 1) as nat, hex);
        lemma_digits_value_step(s, pos, (n - 1) as nat, hex);
    }
}

proof fn lemma_digit_run(s: Seq<char>, pos: int, k: nat, hex: bool)
    requires
        0 <= pos,
        pos + k <= s.len(),
        forall|j: int| pos <= j < pos + k ==> digit_of(#[trigger] s[j], hex) is Some,
    ensures
        digit_run(s, pos, hex) >= k,
        (pos + k == s.len() || digit_of(s[pos + k], hex) is None) ==> digit_run(s, pos, hex)
            == k,
    decreases k,
{
    if k > 0 {
        lemma_digit_run(s, pos + 1, (k - 1) as nat, hex);
    }
}

/// The value of `n` digits depends only on those digits.
#[verifier::spinoff_prover]
#[verifier::rlimit(30)]
proof fn lemma_digits_value_window(s: Seq<char>, pos: int, t: Seq<char>, n: nat, hex: bool)
    requires
        0 <= pos,
        pos + n <= s.len(),
        n <= t.len(),
        forall|i: int| 0 <= i < n ==> s[pos + i] == t[i],
    ensures
        digits_value(s, pos, n, hex) == digits_value(t, 0, n, hex),
    decreases n,
{
    if n > 0 {
        lemma_digits_value_window(s, pos, t, (n - 1) as nat, hex);
        assert(s[pos + n - 1] == t[n - 1]);
    }
}

/// The decimal digits of `n`: at least one, all digits, worth `n`, with no
/// leading zero, and few for small numbers.
#[verifier::spinoff_prover]
#[verifier::rlimit(30)]
proof fn lemma_decimal(n: nat)
    ensures
        decimal(n).len() >= 1,
        forall|i: int| 0 <= i < decimal(n).len() ==> digit_of(#[trigger] decimal(n)[i], false) is Some,
        forall|i: int| 0 <= i < decimal(n).len() ==> '0' <= #[trigger] decimal(n)[i] && decimal(n)[i] <= '9',
        digits_value(decimal(n), 0, decimal(n).len(), false) == n,
        decimal(n)[0] == '0' ==> n == 0,
        n < 10 ==> decimal(n).len() == 1,
        n < 100 ==> decimal(n).len() <= 2,
        n < 1000 ==> decimal(n).len() <= 3,
    decreases n,
{
    let d = decimal(n);
    if n < 10 {
        assert(d =~= seq![digit_char(n)]);
        assert(digit_of(d[0], false) == Some(n));
        assert(digits_value(d, 0, 0, false) == 0);
    } else {
        let e = decimal(n / 10);
        lemma_decimal(n / 10);
        assert(d == e.push(digit_char(n % 10)));
        assert forall|i: int| 0 <= i < d.len() implies digit_of(#[trigger] d[i], false) is Some && '0'
            <= d[i] && d[i] <= '9' by {
            if i < e.len() {
                assert(d[i] == e[i]);
            }
        }
        lemma_digits_value_window(d, 0, e, e.len(), false);
        assert(digit_of(d[e.len() as int], false) == Some(n % 10));
        assert(d[0] == e[0]);
    }
}

/// `decimal(n)` at `pos`, followed by the end or by no digit, reads as `n`.
#[verifier::spinoff_prover]
#[verifier::rlimit(30)]
proof fn lemma_read_decimal(
    s: Seq<char>,
    pos: int,
    n: nat,
    max: Option<nat>,
    zero_ok: bool,
    limit: nat,
)
    requires
        0 <= pos,
        pos + decimal(n).len() <= s.len(),
        s.subrange(pos, pos + decimal(n).len()) == decimal(n),
        pos + decimal(n).len() == s.len() || digit_of(s[pos + decimal(n).len()], false) is None,
        n <= limit,
        max matches Some(m) ==> decimal(n).len() <= m,
    ensures
        read_number(s, pos, false, max, zero_ok, limit) == Some((n, pos + decimal(n).len())),
{
    let d = decimal(n);
    let k = d.len();
    lemma_decimal(n);
    assert forall|j: int| pos <= j < pos + k implies digit_of(#[trigger] s[j], false) is Some by {
        assert(s[j] == s.subrange(pos, pos + k)[j - pos]);
    }
    lemma_digit_run(s, pos, k, false);
    assert forall|i: int| 0 <= i < k implies s[pos + i] == d[i] by {
        assert(s[pos + i] == s.subrange(pos, pos + k)[i]);
    }
    lemma_digits_value_window(s, pos, d, k, false);
    assert(s[pos] == d[0]);
}

/// The text of an IPv4 address, then the end or a character that is no
/// digit and no dot, reads back as the address.
#[verifier::spinoff_prover]
#[verifier::rlimit(30)]
proof fn lemma_ipv4_text_reads(a: u8, b: u8, c: u8, d: u8, rest: Seq<char>)
    requires
        rest.len() == 0 || (digit_of(rest[0], false) is None && rest[0] != '.'),
    ensures
        read_ipv4(ipv4_text(a, b, c, d) + rest, 0) == Some(
            (seq![a as nat, b as nat, c as nat, d as nat], ipv4_text(a, b, c, d).len() as int),
        ),
{
    let (da, db, dc, dd) = (decimal(a as nat), decimal(b as nat), decimal(c as nat), decimal(d as nat));
    lemma_decimal(a as nat);
    lemma_decimal(b as nat);
    lemma_decimal(c as nat);
    lemma_decimal(d as nat);
    let s = ipv4_text(a, b, c, d) + rest;
    let p1 = da.len() as int;
    let p2 = p1 + 1 + db.len();
    let p3 = p2 + 1 + dc.len();
    let p4 = p3 + 1 + dd.len();
    assert(ipv4_text(a, b, c, d).len() == p4);
    assert(s.subrange(0, p1) =~= da);
    assert(s[p1] == '.');
    assert(s.subrange(p1 + 1, p2) =~= db);
    assert(s[p2] == '.');
    assert(s.subrange(p2 + 1, p3) =~= dc);
    assert(s[p3] == '.');
    assert(s.subrange(p3 + 1, p4) =~= dd);
    assert(p4 == s.len() || s[p4] == rest[0]);
    lemma_read_decimal(s, 0, a as nat, Some(3), false, 255);
    lemma_read_decimal(s, p1 + 1, b as nat, Some(3), false, 255);
    lemma_read_decimal(s, p2 + 1, c as nat, Some(3), false, 255);
    lemma_read_decimal(s, p3 + 1, d as nat, Some(3), false, 255);
}

/// An IPv4 address as this library writes it reads back as the same address.
#[verifier::spinoff_prover]
#[verifier::rlimit(30)]
proof fn lemma_ipv4_reads_back(ip: IpAddress)
    requires
        ip is V4,
    ensures
        parse_ip(ip_text(ip)) == Some(ip),
{
    if let IpAddress::V4(a, b, c, d) = ip {
        lemma_ipv4_text_reads(a, b, c, d, seq![]);
        assert(ipv4_text(a, b, c, d) + seq![] =~= ipv4_text(a, b, c, d));
    }
}

/// An IPv4 socket address (which has no scope) as this library writes it
/// reads back as the same socket address.
#[verifier::spinoff_prover]
#[verifier::rlimit(40)]
proof fn lemma_ipv4_endpoint_reads_back(e: Endpoint)
    requires
        e.ip is V4,
        e.scope_id == 0,
    ensures
        parse_socket_addr(endpoint_text(e)) == Some(e),
{
    if let IpAddress::V4(a, b, c, d) = e.ip {
        let port = decimal(e.port as nat);
        let rest = seq![':'] + port;
        lemma_ipv4_text_reads(a, b, c, d, rest);
        let s = endpoint_text(e);
        assert(s =~= ipv4_text(a, b, c, d) + rest);
        let p = ipv4_text(a, b, c, d).len() as int;
        assert(s[p] == ':');
        lemma_decimal(e.port as nat);
        assert(s.subrange(p + 1, p + 1 + port.len()) =~= port);
        lemma_read_decimal(s, p + 1, e.port as nat, None, true, 0xffff);
    }
}

/// A character of an address as this library writes it.
pub open spec fn address_char(c: char) -> bool {
    digit_of(c, true) is Some || c == '.' || c == ':' || c == '[' || c == ']' || c == '%'
}

/// Whether every character of `s` is an address character.
pub open spec fn address_chars(s: Seq<char>) -> bool {
    forall|i: int| 0 <= i < s.len() ==> address_char(#[trigger] s[i])
}

proof fn lemma_address_chars_join(a: Seq<char>, b: Seq<char>)
    requires
        address_chars(a),
        address_chars(b),
    ensures
        address_chars(a + b),
{
    assert forall|i: int| 0 <= i < (a + b).len() implies address_char(#[trigger] (a + b)[i]) by {
        if i < a.len() {
            assert((a + b)[i] == a[i]);
        } else {
            assert((a + b)[i] == b[i - a.len()]);
        }
    }
}

proof fn lemma_join_groups_chars(g: Seq<u16>)
    ensures
        address_chars(join_groups(g)),
    decreases g.len(),
{
    if g.len() > 0 {
        lemma_hexadecimal(g[0] as nat);
        let x = hexadecimal(g[0] as nat);
        assert(address_chars(x));
        if g.len() > 1 {
            lemma_join_groups_chars(g.drop_first());
            lemma_address_chars_join(x, seq![':']);
            lemma_address_chars_join(x + seq![':'], join_groups(g.drop_first()));
        }
    }
}

proof fn lemma_ipv4_text_chars(a: u8, b: u8, c: u8, d: u8)
    ensures
        address_chars(ipv4_text(a, b, c, d)),
{
    lemma_decimal(a as nat);
    lemma_decimal(b as nat);
    lemma_decimal(c as nat);
    lemma_decimal(d as nat);
    let dot = seq!['.'];
    let (da, db, dc, dd) = (decimal(a as nat), decimal(b as nat), decimal(c as nat), decimal(d as nat));
    assert(address_chars(da) && address_chars(db) && address_chars(dc) && address_chars(dd));
    lemma_address_chars_join(da, dot);
    lemma_address_chars_join(da + dot, db);
    lemma_address_chars_join(da + dot + db, dot);
    lemma_address_chars_join(da + dot + db + dot, dc);
    lemma_address_chars_join(da + dot + db + dot + dc, dot);
    lemma_address_chars_join(da + dot + db + dot + dc + dot, dd);
}

/// Every character of a socket address as this library writes it is an
/// address character, and a colon stands right before the port.
#[verifier::spinoff_prover]
#[verifier::rlimit(40)]
pub proof fn lemma_endpoint_text_chars(e: Endpoint)
    ensures
        address_chars(endpoint_text(e)),
        endpoint_text(e)[endpoint_text(e).len() - decimal(e.port as nat).len() - 1] == ':',
        endpoint_text(e).len() > decimal(e.port as nat).len(),
{
    let t = ip_text(e.ip);
    reveal_strlit("::");
    reveal_strlit("::ffff:");
    match e.ip {
        IpAddress::V4(a, b, c, d) => lemma_ipv4_text_chars(a, b, c, d),
        IpAddress::V6(s0, s1, s2, s3, s4, s5, s6, s7) => {
            if s0 == 0 && s1 == 0 && s2 == 0 && s3 == 0 && s4 == 0 && s5 == 0xffff {
                lemma_ipv4_text_chars((s6 / 256) as u8, (s6 % 256) as u8, (s7 / 256) as u8, (s7 % 256) as u8);
                assert(address_chars("::ffff:"@));
                lemma_address_chars_join("::ffff:"@, ipv4_text((s6 / 256) as u8, (s6 % 256) as u8, (s7 / 256) as u8, (s7 % 256) as u8));
            } else {
                let g = groups(e.ip);
                let z = zero_run(g, 0, (0, 0), (0, 0));
                if z.1 > 1 {
                    lemma_join_groups_chars(g.take(z.0));
                    lemma_join_groups_chars(g.skip(z.0 + z.1));
                    assert(address_chars("::"@));
                    lemma_address_chars_join(join_groups(g.take(z.0)), "::"@);
                    lemma_address_chars_join(join_groups(g.take(z.0)) + "::"@, join_groups(g.skip(z.0 + z.1)));
                } else {
                    lemma_join_groups_chars(g);
                }
            }
        },
    }
    assert(address_chars(t));
    let dp = decimal(e.port as nat);
    lemma_decimal(e.port as nat);
    lemma_decimal(e.scope_id as nat);
    assert(address_chars(dp));
    let ds = decimal(e.scope_id as nat);
    assert(address_chars(ds));
    let tail = seq![':'] + dp;
    lemma_address_chars_join(seq![':'], dp);
    let x = endpoint_text(e);
    match e.ip {
        IpAddress::V4(..) => {
            assert(x == t + tail);
            lemma_address_chars_join(t, tail);
        },
        IpAddress::V6(..) => {
            lemma_address_chars_join(seq!['['], t);
            if e.scope_id == 0 {
                assert(x =~= (seq!['['] + t) + (seq![']'] + tail));
                lemma_address_chars_join(seq![']'], tail);
                lemma_address_chars_join(seq!['['] + t, seq![']'] + tail);
            } else {
                assert(x =~= ((seq!['['] + t) + (seq!['%'] + ds)) + (seq![']'] + tail));
                lemma_address_chars_join(seq!['%'], ds);
                lemma_address_chars_join(seq!['['] + t, seq!['%'] + ds);
                lemma_address_chars_join(seq![']'], tail);
                lemma_address_chars_join((seq!['['] + t) + (seq!['%'] + ds), seq![']'] + tail);
            }
        },
    }
    assert(x.len() >= tail.len());
    assert(x[x.len() - dp.len() - 1] == tail[0]);
}

/// The hexadecimal digits of `n`: at least one, all hexadecimal digits (so
/// neither `:` nor `.`), worth `n`, and at most four below 0x10000.
#[verifier::spinoff_prover]
#[verifier::rlimit(30)]
proof fn lemma_hexadecimal(n: nat)
    ensures
        hexadecimal(n).len() >= 1,
        forall|i: int| 0 <= i < hexadecimal(n).len() ==> digit_of(#[trigger] hexadecimal(n)[i], true) is Some,
        digits_value(hexadecimal(n), 0, hexadecimal(n).len(), true) == n,
        n < 0x10 ==> hexadecimal(n).len() == 1,
        n < 0x100 ==> hexadecimal(n).len() <= 2,
        n < 0x1000 ==> hexadecimal(n).len() <= 3,
        n < 0x10000 ==> hexadecimal(n).len() <= 4,
    decreases n,
{
    let d = hexadecimal(n);
    if n < 16 {
        assert(d =~= seq![digit_char(n)]);
        assert(digit_of(d[0], true) == Some(n));
        assert(digits_value(d, 0, 0, true) == 0);
    } else {
        let e = hexadecimal(n / 16);
        lemma_hexadecimal(n / 16);
        assert(d == e.push(digit_char(n % 16)));
        assert forall|i: int| 0 <= i < d.len() implies digit_of(#[trigger] d[i], true) is Some by {
            if i < e.len() {
                assert(d[i] == e[i]);
            } else {
                assert(digit_of(d[i], true) == Some(n % 16));
            }
        }
        lemma_digits_value_window(d, 0, e, e.len(), true);
        assert(digit_of(d[e.len() as int], true) == Some(n % 16));
    }
}

/// A run of digits stops where a non-digit (or the end) is known to be.
#[verifier::spinoff_prover]
#[verifier::rlimit(30)]
proof fn lemma_digit_run_stops(s: Seq<char>, q: int, l: nat, hex: bool)
    requires
        0 <= q,
        q + l <= s.len(),
        q + l == s.len() || digit_of(s[q + l], hex) is None,
    ensures
        digit_run(s, q, hex) <= l,
    decreases l,
{
    if l > 0 && digit_of(s[q], hex) is Some {
        lemma_digit_run_stops(s, q + 1, (l - 1) as nat, hex);
    }
}

/// A hexadecimal digit is never `.`.
proof fn lemma_hex_digit_not_dot(c: char)
    requires
        digit_of(c, true) is Some,
    ensures
        c != '.',
        c != ':',
{
}

/// Whether a group may end at `e`: at the end of the text, or before a colon,
/// a closing bracket or a scope sign.
pub open spec fn ends_group(s: Seq<char>, e: int) -> bool {
    e == s.len() || (0 <= e < s.len() && (s[e] == ':' || s[e] == ']' || s[e] == '%'))
}

/// A group `hexadecimal(n)` at `q`, followed by the end, a colon, a closing
/// bracket or a scope sign, reads as the group `n` and never as the start of
/// an IPv4 address.
#[verifier::spinoff_prover]
#[verifier::rlimit(30)]
proof fn lemma_read_hex_group(s: Seq<char>, q: int, n: nat)
    requires
        0 <= q,
        n <= 0xffff,
        q + hexadecimal(n).len() <= s.len(),
        s.subrange(q, q + hexadecimal(n).len()) == hexadecimal(n),
        ends_group(s, q + hexadecimal(n).len()),
    ensures
        read_number(s, q, true, Some(4), true, 0xffff) == Some((n, q + hexadecimal(n).len())),
        read_ipv4(s, q) is None,
{
    let d = hexadecimal(n);
    let k = d.len();
    lemma_hexadecimal(n);
    assert forall|i: int| 0 <= i < k implies s[q + i] == d[i] by {
        assert(s[q + i] == s.subrange(q, q + k)[i]);
    }
    assert forall|j: int| q <= j < q + k implies digit_of(#[trigger] s[j], true) is Some by {
        assert(s[j] == d[j - q]);
    }
    lemma_digit_run(s, q, k, true);
    lemma_digits_value_window(s, q, d, k, true);
    lemma_digit_run_stops(s, q, k, false);
    let r = digit_run(s, q, false);
    if r < k {
        assert(digit_of(s[q + r], true) is Some);
        lemma_hex_digit_not_dot(s[q + r]);
    }
}

/// The text of groups `h` read from the `i`-th group on: a colon before
/// them unless they come first.
pub open spec fn groups_text(h: Seq<u16>, i: nat) -> Seq<char> {
    if h.len() == 0 {
        seq![]
    } else if i == 0 {
        join_groups(h)
    } else {
        seq![':'] + join_groups(h)
    }
}

/// Groups as numbers.
pub open spec fn as_nats(h: Seq<u16>) -> Seq<nat> {
    h.map_values(|x: u16| x as nat)
}

/// Whether reading group `j` at `e` finds nothing.
pub open spec fn group_stops(s: Seq<char>, e: int, j: nat) -> bool {
    read_group_ipv4(s, e, j) is None && read_group_hex(s, e, j) is None
}

/// Groups written by `join_groups` are read back one by one, up to where
/// reading is known to stop.
#[verifier::spinoff_prover]
#[verifier::rlimit(40)]
proof fn lemma_read_joined(s: Seq<char>, start: int, h: Seq<u16>, i: nat, limit: nat, acc: Seq<nat>)
    requires
        0 <= start,
        i + h.len() <= limit,
        start + groups_text(h, i).len() <= s.len(),
        s.subrange(start, start + groups_text(h, i).len()) == groups_text(h, i),
        ends_group(s, start + groups_text(h, i).len()),
        i + h.len() < limit ==> group_stops(s, start + groups_text(h, i).len(), i + h.len()),
    ensures
        read_groups(s, start, i, limit, acc) == (acc + as_nats(h), start + groups_text(h, i).len(), false),
    decreases h.len(),
{
    let t = groups_text(h, i);
    let e = start + t.len();
    if h.len() == 0 {
        assert(acc + as_nats(h) =~= acc);
    } else {
        let q = if i == 0 {
            start
        } else {
            start + 1
        };
        if i > 0 {
            assert(s[start] == s.subrange(start, e)[0]);
        }
        assert(after_colon(s, start, i) == Some(q));
        let h0 = h[0] as nat;
        let x = hexadecimal(h0);
        let rest = h.drop_first();
        let j = join_groups(h);
        if h.len() == 1 {
            assert(j == x);
        } else {
            assert(j == x + seq![':'] + join_groups(rest));
        }
        assert(t == (if i == 0 { j } else { seq![':'] + j }));
        assert(q + x.len() <= e);
        assert forall|k: int| 0 <= k < x.len() implies s.subrange(q, q + x.len())[k] == x[k] by {
            assert(s.subrange(q, q + x.len())[k] == s[q + k]);
            assert(s[q + k] == s.subrange(start, e)[q + k - start]);
            assert(t[q + k - start] == j[k]);
        }
        assert(s.subrange(q, q + x.len()) =~= x);
        if h.len() > 1 {
            assert(s[q + x.len()] == s.subrange(start, e)[q + x.len() - start]);
            assert(j[x.len() as int] == ':');
        }
        lemma_read_hex_group(s, q, h0);
        let start2 = q + x.len();
        let t2 = groups_text(rest, i + 1);
        if rest.len() > 0 {
            assert(t2 == seq![':'] + join_groups(rest));
            assert(start2 + t2.len() == e);
            assert forall|k: int| 0 <= k < t2.len() implies s.subrange(start2, start2 + t2.len())[k]
                == t2[k] by {
                assert(s.subrange(start2, start2 + t2.len())[k] == s[start2 + k]);
                assert(s[start2 + k] == s.subrange(start, e)[start2 + k - start]);
            }
            assert(s.subrange(start2, start2 + t2.len()) =~= t2);
        } else {
            assert(start2 == e);
            assert(s.subrange(start2, start2) =~= t2);
        }
        lemma_read_joined(s, start2, rest, i + 1, limit, acc.push(h0));
        assert(acc.push(h0) + as_nats(rest) =~= acc + as_nats(h));
    }
}

/// A run of zero groups `(start, length)` within `g`, or no run.
pub open spec fn zero_span(g: Seq<u16>, r: (int, int)) -> bool {
    &&& r.1 >= 0
    &&& r.1 > 0 ==> 0 <= r.0 && r.0 + r.1 <= g.len() && forall|k: int|
        r.0 <= k < r.0 + r.1 ==> #[trigger] g[k] == 0
}

/// The run that `zero_run` picks is a run of zero groups.
#[verifier::spinoff_prover]
#[verifier::rlimit(30)]
proof fn lemma_zero_run(g: Seq<u16>, i: int, cur: (int, int), best: (int, int))
    requires
        zero_span(g, best),
        cur.1 >= 0,
        cur.1 > 0 ==> cur.0 + cur.1 == i && zero_span(g, cur),
    ensures
        zero_span(g, zero_run(g, i, cur, best)),
    decreases g.len() - i,
{
    if 0 <= i < g.len() {
        if g[i] == 0 {
            let c = if cur.1 == 0 {
                (i, 1int)
            } else {
                (cur.0, cur.1 + 1)
            };
            assert(zero_span(g, c));
            lemma_zero_run(g, i + 1, c, if c.1 > best.1 { c } else { best });
        } else {
            lemma_zero_run(g, i + 1, (0, 0), best);
        }
    }
}

/// Where a group may end nothing is read: no IPv4 address and no group.
#[verifier::spinoff_prover]
#[verifier::rlimit(30)]
proof fn lemma_colon_reads_nothing(s: Seq<char>, q: int)
    requires
        0 <= q,
        ends_group(s, q),
    ensures
        read_ipv4(s, q) is None,
        read_number(s, q, true, Some(4), true, 0xffff) is None,
{
}

/// Where reading groups is known to stop: at the end of the text, before
/// the second colon of `::`, or at a closing bracket or scope sign.
#[verifier::spinoff_prover]
#[verifier::rlimit(30)]
proof fn lemma_groups_stop(s: Seq<char>, e: int, j: nat)
    requires
        0 <= e,
        e == s.len() || (e + 1 < s.len() && s[e] == ':' && s[e + 1] == ':') || (e < s.len() && (s[e]
            == ']' || s[e] == '%')),
    ensures
        group_stops(s, e, j),
{
    if e < s.len() && s[e] == ':' {
        lemma_colon_reads_nothing(s, e);
        lemma_colon_reads_nothing(s, e + 1);
    } else {
        lemma_colon_reads_nothing(s, e);
    }
}

/// Whether `post` may follow an IPv6 address: nothing, a closing bracket or
/// a scope sign.
pub open spec fn after_ipv6(post: Seq<char>) -> bool {
    post.len() == 0 || post[0] == ']' || post[0] == '%'
}

/// The text of an IPv4 address between `pre` and a `post` that starts with
/// no digit and no dot reads back as the address.
#[verifier::spinoff_prover]
#[verifier::rlimit(30)]
proof fn lemma_ipv4_text_reads_between(pre: Seq<char>, a: u8, b: u8, c: u8, d: u8, post: Seq<char>)
    requires
        post.len() == 0 || (digit_of(post[0], false) is None && post[0] != '.'),
    ensures
        read_ipv4(pre + ipv4_text(a, b, c, d) + post, pre.len() as int) == Some(
            (
                seq![a as nat, b as nat, c as nat, d as nat],
                (pre.len() + ipv4_text(a, b, c, d).len()) as int,
            ),
        ),
{
    let (da, db, dc, dd) = (decimal(a as nat), decimal(b as nat), decimal(c as nat), decimal(d as nat));
    lemma_decimal(a as nat);
    lemma_decimal(b as nat);
    lemma_decimal(c as nat);
    lemma_decimal(d as nat);
    let s = pre + ipv4_text(a, b, c, d) + post;
    let m = pre.len() as int;
    let p1 = m + da.len();
    let p2 = p1 + 1 + db.len();
    let p3 = p2 + 1 + dc.len();
    let p4 = p3 + 1 + dd.len();
    assert(m + ipv4_text(a, b, c, d).len() == p4);
    assert(s.subrange(m, p1) =~= da);
    assert(s[p1] == '.');
    assert(s.subrange(p1 + 1, p2) =~= db);
    assert(s[p2] == '.');
    assert(s.subrange(p2 + 1, p3) =~= dc);
    assert(s[p3] == '.');
    assert(s.subrange(p3 + 1, p4) =~= dd);
    assert(p4 == s.len() || s[p4] == post[0]);
    lemma_read_decimal(s, m, a as nat, Some(3), false, 255);
    lemma_read_decimal(s, p1 + 1, b as nat, Some(3), false, 255);
    lemma_read_decimal(s, p2 + 1, c as nat, Some(3), false, 255);
    lemma_read_decimal(s, p3 + 1, d as nat, Some(3), false, 255);
}

/// What reading an IPv6 address written by this library gives: no IPv4
/// address where it starts, and its groups up to where it ends.
pub open spec fn reads_as_ipv6(s: Seq<char>, m: int, ip: IpAddress) -> bool {
    &&& read_ipv4(s, m) is None
    &&& read_ipv6(s, m) == Some((as_nats(groups(ip)), m + ip_text(ip).len()))
}

/// An IPv6 address mapping an IPv4 one, written `::ffff:a.b.c.d`, reads
/// back as the same groups.
#[verifier::spinoff_prover]
#[verifier::rlimit(80)]
proof fn lemma_mapped_reads_within(ip: IpAddress, pre: Seq<char>, post: Seq<char>)
    requires
        ip matches IpAddress::V6(s0, s1, s2, s3, s4, s5, _, _) && s0 == 0 && s1 == 0 && s2 == 0 && s3
            == 0 && s4 == 0 && s5 == 0xffff,
        after_ipv6(post),
    ensures
        reads_as_ipv6(pre + ip_text(ip) + post, pre.len() as int, ip),
{
    if let IpAddress::V6(s0, s1, s2, s3, s4, s5, s6, s7) = ip {
        let s = pre + ip_text(ip) + post;
        let m = pre.len() as int;
        let (a, b, c, d) = ((s6 / 256) as u8, (s6 % 256) as u8, (s7 / 256) as u8, (s7 % 256) as u8);
        let lead = "::ffff:"@;
        reveal_strlit("::ffff:");
        assert(lead =~= seq![':', ':', 'f', 'f', 'f', 'f', ':']);
        assert(ip_text(ip) == lead + ipv4_text(a, b, c, d));
        assert(s =~= (pre + lead) + ipv4_text(a, b, c, d) + post);
        assert(s[m] == ':' && s[m + 1] == ':');
        lemma_colon_reads_nothing(s, m);
        lemma_groups_stop(s, m, 0);
        let none = Seq::<u16>::empty();
        assert(groups_text(none, 0) =~= Seq::<char>::empty());
        assert(s.subrange(m, m) =~= groups_text(none, 0));
        lemma_read_joined(s, m, none, 0, 8, seq![]);
        assert(Seq::<nat>::empty() + as_nats(none) =~= Seq::<nat>::empty());
        assert(read_groups(s, m, 0, 8, seq![]) == (Seq::<nat>::empty(), m, false));
        lemma_hexadecimal(0xffff);
        reveal_with_fuel(hexadecimal, 5);
        assert(hexadecimal(0xffff) =~= seq!['f', 'f', 'f', 'f']);
        assert(s.subrange(m + 2, m + 6) =~= hexadecimal(0xffff));
        assert(s[m + 6] == ':');
        lemma_read_hex_group(s, m + 2, 0xffff);
        assert(after_colon(s, m + 2, 0) == Some(m + 2));
        assert(read_group_ipv4(s, m + 2, 0) is None);
        assert(read_group_hex(s, m + 2, 0) == Some((0xffffnat, m + 6)));
        assert(post.len() == 0 || (digit_of(post[0], false) is None && post[0] != '.'));
        lemma_ipv4_text_reads_between(pre + lead, a, b, c, d, post);
        let e = m + ip_text(ip).len();
        assert(after_colon(s, m + 6, 1) == Some(m + 7));
        let q = seq![a as nat, b as nat, c as nat, d as nat];
        assert(read_group_ipv4(s, m + 6, 1) == Some((q, e)));
        let tail = seq![0xffffnat, q[0] * 256 + q[1], q[2] * 256 + q[3]];
        assert(seq![0xffffnat] + seq![q[0] * 256 + q[1], q[2] * 256 + q[3]] =~= tail);
        assert(read_groups(s, m + 6, 1, 7, seq![0xffffnat]) == (tail, e, true));
        assert(read_groups(s, m + 2, 0, 7, seq![]) == (tail, e, true));
        assert(q[0] * 256 + q[1] == s6);
        assert(q[2] * 256 + q[3] == s7);
        let r = Seq::<nat>::empty() + Seq::new(5, |j: int| 0nat) + tail;
        assert(read_ipv6(s, m) == Some((r, e)));
        assert(r =~= as_nats(groups(ip)));
    }
}

/// An IPv6 address written with its longest run of zero groups as `::`
/// reads back as the same groups.
#[verifier::spinoff_prover]
#[verifier::rlimit(60)]
proof fn lemma_compressed_reads_within(ip: IpAddress, z: (int, int), pre: Seq<char>, post: Seq<char>)
    requires
        ip is V6,
        z.1 > 1,
        zero_span(groups(ip), z),
        ip_text(ip) == join_groups(groups(ip).take(z.0)) + "::"@ + join_groups(groups(ip).skip(z.0 + z.1)),
        after_ipv6(post),
    ensures
        reads_as_ipv6(pre + ip_text(ip) + post, pre.len() as int, ip),
{
    let g = groups(ip);
    let m = pre.len() as int;
    let s = pre + ip_text(ip) + post;
    reveal_strlit("::");
    assert(g.len() == 8);
    let (z0, z1) = (z.0, z.1);
    let h = g.take(z0);
    let tl = g.skip(z0 + z1);
    let jh = join_groups(h);
    let jt = join_groups(tl);
    let p1 = m + jh.len();
    let e = m + ip_text(ip).len();
    assert(ip_text(ip) =~= jh + seq![':', ':'] + jt);
    assert(s =~= pre + jh + seq![':', ':'] + jt + post);
    assert(s.subrange(m, p1) =~= jh);
    assert(s[p1] == ':' && s[p1 + 1] == ':');
    if z0 == 0 {
        lemma_colon_reads_nothing(s, m);
    } else {
        let x0 = hexadecimal(g[0] as nat);
        assert(h[0] == g[0]);
        if h.len() == 1 {
            assert(jh == x0);
        } else {
            assert(jh == x0 + seq![':'] + join_groups(h.drop_first()));
        }
        assert(s.subrange(m, m + x0.len()) =~= x0);
        assert(s[m + x0.len()] == ':');
        lemma_read_hex_group(s, m, g[0] as nat);
    }
    assert(groups_text(h, 0) == jh);
    lemma_groups_stop(s, p1, z0 as nat);
    lemma_read_joined(s, m, h, 0, 8, seq![]);
    assert(Seq::<nat>::empty() + as_nats(h) =~= as_nats(h));
    let limit = (8 - (z0 + 1)) as nat;
    assert(groups_text(tl, 0) == jt);
    assert(p1 + 2 + jt.len() == e);
    assert(s.subrange(p1 + 2, e) =~= jt);
    assert(e == s.len() || s[e] == post[0]);
    if tl.len() < limit {
        lemma_groups_stop(s, e, tl.len());
    }
    lemma_read_joined(s, p1 + 2, tl, 0, limit, seq![]);
    assert(Seq::<nat>::empty() + as_nats(tl) =~= as_nats(tl));
    let r = as_nats(h) + Seq::new((8 - h.len() - tl.len()) as nat, |j: int| 0nat) + as_nats(tl);
    assert(read_ipv6(s, m) == Some((r, e)));
    assert(r =~= as_nats(g));
}

/// An IPv6 address written as eight groups reads back as the same groups.
#[verifier::spinoff_prover]
#[verifier::rlimit(60)]
proof fn lemma_plain_reads_within(ip: IpAddress, pre: Seq<char>, post: Seq<char>)
    requires
        ip is V6,
        ip_text(ip) == join_groups(groups(ip)),
        after_ipv6(post),
    ensures
        reads_as_ipv6(pre + ip_text(ip) + post, pre.len() as int, ip),
{
    let g = groups(ip);
    let m = pre.len() as int;
    let t = ip_text(ip);
    let s = pre + t + post;
    let e = m + t.len();
    assert(g.len() == 8);
    let x0 = hexadecimal(g[0] as nat);
    assert(t == x0 + seq![':'] + join_groups(g.drop_first()));
    assert(s.subrange(m, m + x0.len()) =~= x0);
    assert(s[m + x0.len()] == ':');
    lemma_read_hex_group(s, m, g[0] as nat);
    assert(groups_text(g, 0) == t);
    assert(s.subrange(m, e) =~= t);
    assert(e == s.len() || s[e] == post[0]);
    lemma_read_joined(s, m, g, 0, 8, seq![]);
    assert(Seq::<nat>::empty() + as_nats(g) =~= as_nats(g));
    assert(read_ipv6(s, m) == Some((as_nats(g), e)));
}

/// An IPv6 address as this library writes it, between any text and an end,
/// a closing bracket or a scope sign, reads back as its groups.
proof fn lemma_ipv6_reads_within(ip: IpAddress, pre: Seq<char>, post: Seq<char>)
    requires
        ip is V6,
        after_ipv6(post),
    ensures
        reads_as_ipv6(pre + ip_text(ip) + post, pre.len() as int, ip),
{
    if let IpAddress::V6(s0, s1, s2, s3, s4, s5, s6, s7) = ip {
        if s0 == 0 && s1 == 0 && s2 == 0 && s3 == 0 && s4 == 0 && s5 == 0xffff {
            lemma_mapped_reads_within(ip, pre, post);
        } else {
            let g = groups(ip);
            let z = zero_run(g, 0, (0, 0), (0, 0));
            lemma_zero_run(g, 0, (0, 0), (0, 0));
            if z.1 > 1 {
                lemma_compressed_reads_within(ip, z, pre, post);
            } else {
                lemma_plain_reads_within(ip, pre, post);
            }
        }
    }
}

/// An IPv6 address as this library writes it reads back as the same address.
proof fn lemma_ipv6_reads_back(ip: IpAddress)
    requires
        ip is V6,
    ensures
        parse_ip(ip_text(ip)) == Some(ip),
{
    let none = Seq::<char>::empty();
    lemma_ipv6_reads_within(ip, none, none);
    assert(none + ip_text(ip) + none =~= ip_text(ip));
    assert(ipv6_of(as_nats(groups(ip))) == ip);
}

/// An IPv6 socket address as this library writes it reads back as the same
/// socket address, scope included.
#[verifier::spinoff_prover]
#[verifier::rlimit(60)]
proof fn lemma_ipv6_endpoint_reads_back(e: Endpoint)
    requires
        e.ip is V6,
    ensures
        parse_socket_addr(endpoint_text(e)) == Some(e),
{
    let t = ip_text(e.ip);
    let dp = decimal(e.port as nat);
    let ds = decimal(e.scope_id as nat);
    lemma_decimal(e.port as nat);
    lemma_decimal(e.scope_id as nat);
    let close = seq![']', ':'] + dp;
    let post = if e.scope_id == 0 {
        close
    } else {
        seq!['%'] + ds + close
    };
    let pre = seq!['['];
    let s = endpoint_text(e);
    assert(s =~= pre + t + post);
    lemma_ipv6_reads_within(e.ip, pre, post);
    let p: int = 1 + t.len() as int;
    assert(read_ipv4(s, 0) is None);
    assert(read_ipv6(s, 1) == Some((as_nats(groups(e.ip)), p)));
    let q: int = if e.scope_id == 0 {
        p
    } else {
        p + 1 + ds.len()
    };
    if e.scope_id != 0 {
        assert(s[p] == '%');
        assert(s.subrange(p + 1, q) =~= ds);
        assert(s[q] == ']');
        lemma_read_decimal(s, p + 1, e.scope_id as nat, None, true, 0xffff_ffff);
        assert(scope_part(s, p) == (e.scope_id as nat, q));
    } else {
        assert(s[p] == ']');
        assert(scope_part(s, p) == (0nat, p));
    }
    assert(s[q] == ']' && s[q + 1] == ':');
    assert(s.subrange(q + 2, s.len() as int) =~= dp);
    lemma_read_decimal(s, q + 2, e.port as nat, None, true, 0xffff);
    assert(ipv6_of(as_nats(groups(e.ip))) == e.ip);
}

/// A socket address as this library writes it reads back as the same socket
/// address (an IPv4 one carries no scope).
pub proof fn lemma_endpoint_reads_back(e: Endpoint)
    requires
        e.ip is V4 ==> e.scope_id == 0,
    ensures
        parse_socket_addr(endpoint_text(e)) == Some(e),
{
    match e.ip {
        IpAddress::V4(..) => lemma_ipv4_endpoint_reads_back(e),
        IpAddress::V6(..) => lemma_ipv6_endpoint_reads_back(e),
    }
}

/// An IP address as this library writes it reads back as the same address.
#[verifier::spinoff_prover]
#[verifier::rlimit(30)]
pub proof fn lemma_ip_reads_back(ip: IpAddress)
    ensures
        parse_ip(ip_text(ip)) == Some(ip),
{
    match ip {
        IpAddress::V4(..) => lemma_ipv4_reads_back(ip),
        IpAddress::V6(..) => lemma_ipv6_reads_back(ip),
    }
}

/// Whether a character is a digit.
fn is_digit(c: char, hex: bool) -> (r: bool)
    ensures
        r == (digit_of(c, hex) is Some),
{
    let n = c as u32;
    (48 <= n && n <= 57) || (hex && 97 <= n && n <= 102) || (hex && 65 <= n && n <= 70)
}

/// `read_number` on `s` from `pos`; `max` 0 means no maximum.
fn read_num(s: &[char], pos: usize, hex: bool, max: usize, zero_ok: bool, limit: u64) -> (r:
    Option<(u64, usize)>)
    requires
        pos <= s@.len(),
        limit <= 0xffff_ffff,
    ensures
        match read_number(
            s@,
            pos as int,
            hex,
            if max == 0 {
                None
            } else {
                Some(max as nat)
            },
            zero_ok,
            limit as nat,
        ) {
            Some((v, e)) => r matches Some((rv, re)) && rv == v && re == e,
            None => r is None,
        },
{
    let b: u64 = if hex {
        16
    } else {
        10
    };
    let mut k: usize = 0;
    let mut v: u64 = 0;
    while k < s.len() - pos && is_digit(s[pos + k], hex)
        invariant
            pos <= s.len(),
            k <= s.len() - pos,
            forall|j: int| pos <= j < pos + k ==> digit_of(#[trigger] s@[j], hex) is Some,
            v == digits_value(s@, pos as int, k as nat, hex),
            v <= limit,
            limit <= 0xffff_ffff,
            b == base(hex),
            max != 0 ==> k <= max,
        decreases s@.len() - pos - k,
    {
        let d = match digit(s[pos + k], hex) {
            Some(d) => d,
            None => 0,
        };
        let nv = v * b + d;
        k = k + 1;
        assert(nv == digits_value(s@, pos as int, k as nat, hex));
        if nv > limit {
            proof {
                lemma_digit_run(s@, pos as int, k as nat, hex);
                lemma_digits_value_mono(
                    s@,
                    pos as int,
                    k as nat,
                    digit_run(s@, pos as int, hex),
                    hex,
                );
            }
            return None;
        }
        v = nv;
        if max != 0 && k > max {
            proof {
                lemma_digit_run(s@, pos as int, k as nat, hex);
            }
            return None;
        }
    }
    proof {
        lemma_digit_run(s@, pos as int, k as nat, hex);
    }
    if k == 0 {
        return None;
    }
    if !zero_ok && s[pos] == '0' && k > 1 {
        return None;
    }
    Some((v, pos + k))
}

/// `read_ipv4` on `s` from `pos`.
fn read_v4(s: &[char], pos: usize) -> (r: Option<(u8, u8, u8, u8, usize)>)
    requires
        pos <= s@.len(),
    ensures
        match read_ipv4(s@, pos as int) {
            Some((q, e)) => r matches Some((a, b, c, d, p)) && p == e && a == q[0] && b == q[1]
                && c == q[2] && d == q[3],
            None => r is None,
        },
{
    let (a, p1) = match read_num(s, pos, false, 3, false, 255) {
        Some(x) => x,
        None => return None,
    };
    if !(p1 < s.len() && s[p1] == '.') {
        return None;
    }
    let (b, p2) = match read_num(s, p1 + 1, false, 3, false, 255) {
        Some(x) => x,
        None => return None,
    };
    if !(p2 < s.len() && s[p2] == '.') {
        return None;
    }
    let (c, p3) = match read_num(s, p2 + 1, false, 3, false, 255) {
        Some(x) => x,
        None => return None,
    };
    if !(p3 < s.len() && s[p3] == '.') {
        return None;
    }
    let (d, p4) = match read_num(s, p3 + 1, false, 3, false, 255) {
        Some(x) => x,
        None => return None,
    };
    Some((a as u8, b as u8, c as u8, d as u8, p4))
}

/// `read_group_ipv4` on `s`.
fn group_v4(s: &[char], pos: usize, i: usize) -> (r: Option<(u8, u8, u8, u8, usize)>)
    requires
        pos <= s@.len(),
    ensures
        match read_group_ipv4(s@, pos as int, i as nat) {
            Some((q, e)) => r matches Some((a, b, c, d, p)) && p == e && a == q[0] && b == q[1]
                && c == q[2] && d == q[3],
            None => r is None,
        },
{
    if i == 0 {
        read_v4(s, pos)
    } else if pos < s.len() && s[pos] == ':' {
        read_v4(s, pos + 1)
    } else {
        None
    }
}

/// `read_group_hex` on `s`.
fn group_hex(s: &[char], pos: usize, i: usize) -> (r: Option<(u64, usize)>)
    requires
        pos <= s@.len(),
    ensures
        match read_group_hex(s@, pos as int, i as nat) {
            Some((g, e)) => r matches Some((rg, re)) && rg == g && re == e,
            None => r is None,
        },
{
    if i == 0 {
        read_num(s, pos, true, 4, true, 0xffff)
    } else if pos < s.len() && s[pos] == ':' {
        read_num(s, pos + 1, true, 4, true, 0xffff)
    } else {
        None
    }
}

proof fn lemma_read_number_bounds(
    s: Seq<char>,
    pos: int,
    hex: bool,
    max: Option<nat>,
    zero_ok: bool,
    limit: nat,
)
    requires
        0 <= pos <= s.len(),
    ensures
        read_number(s, pos, hex, max, zero_ok, limit) matches Some((v, e)) ==> v <= limit && pos
            < e <= s.len(),
{
    let k = digit_run(s, pos, hex);
    lemma_digit_run_le(s, pos, hex);
}

proof fn lemma_digit_run_le(s: Seq<char>, pos: int, hex: bool)
    requires
        0 <= pos <= s.len(),
    ensures
        pos + digit_run(s, pos, hex) <= s.len(),
    decreases s.len() - pos,
{
    if pos < s.len() && digit_of(s[pos], hex) is Some {
        lemma_digit_run_le(s, pos + 1, hex);
    }
}

proof fn lemma_read_ipv4_bounds(s: Seq<char>, pos: int)
    requires
        0 <= pos <= s.len(),
    ensures
        read_ipv4(s, pos) matches Some((q, e)) ==> pos < e <= s.len() && q.len() == 4 && q[0]
            <= 255 && q[1] <= 255 && q[2] <= 255 && q[3] <= 255,
{
    lemma_read_number_bounds(s, pos, false, Some(3), false, 255);
    if let Some((a, p1)) = read_octet(s, pos) {
        if 0 <= p1 < s.len() && s[p1] == '.' {
            lemma_read_number_bounds(s, p1 + 1, false, Some(3), false, 255);
            if let Some((b, p2)) = read_octet(s, p1 + 1) {
                if 0 <= p2 < s.len() && s[p2] == '.' {
                    lemma_read_number_bounds(s, p2 + 1, false, Some(3), false, 255);
                    if let Some((c, p3)) = read_octet(s, p2 + 1) {
                        if 0 <= p3 < s.len() && s[p3] == '.' {
                            lemma_read_number_bounds(s, p3 + 1, false, Some(3), false, 255);
                        }
                    }
                }
            }
        }
    }
}

/// `read_groups` bounds: positions stay within the text, the number of
/// groups never exceeds the limit, and every group fits 16 bits.
proof fn lemma_read_groups_bounds(s: Seq<char>, pos: int, i: nat, limit: nat, acc: Seq<nat>)
    requires
        0 <= pos <= s.len(),
        acc.len() == i,
        i <= limit,
        forall|j: int| 0 <= j < acc.len() ==> acc[j] <= 0xffff,
    ensures
        ({
            let (g, p, v4) = read_groups(s, pos, i, limit, acc);
            &&& pos <= p <= s.len()
            &&& i <= g.len() <= limit
            &&& g.take(i as int) == acc
            &&& forall|j: int| 0 <= j < g.len() ==> g[j] <= 0xffff
        }),
    decreases limit - i,
{
    if i >= limit {
    } else if i + 1 < limit && read_group_ipv4(s, pos, i) is Some {
        let p0 = after_colon(s, pos, i)->0;
        lemma_read_ipv4_bounds(s, p0);
        let (q, p) = read_group_ipv4(s, pos, i)->0;
        let g = acc + seq![q[0] * 256 + q[1], q[2] * 256 + q[3]];
        assert(g.take(i as int) =~= acc);
        assert(q[0] * 256 + q[1] <= 0xffff) by (nonlinear_arith)
            requires
                q[0] <= 255,
                q[1] <= 255,
        ;
        assert(q[2] * 256 + q[3] <= 0xffff) by (nonlinear_arith)
            requires
                q[2] <= 255,
                q[3] <= 255,
        ;
    } else {
        match read_group_hex(s, pos, i) {
            None => {
                assert(acc.take(i as int) =~= acc);
            },
            Some((g, p)) => {
                let p0 = after_colon(s, pos, i)->0;
                lemma_read_number_bounds(s, p0, true, Some(4), true, 0xffff);
                lemma_read_groups_bounds(s, p, i + 1, limit, acc.push(g));
                let (gs, _, _) = read_groups(s, p, i + 1, limit, acc.push(g));
                assert(gs.take(i as int) =~= gs.take(i + 1 as int).take(i as int));
                assert(acc.push(g).take(i as int) =~= acc);
            },
        }
    }
}

/// `read_groups` on `s`, appending the groups read to `acc`.
fn groups_from(s: &[char], pos: usize, limit: usize, acc: &mut Vec<u64>) -> (r: (usize, bool))
    requires
        pos <= s@.len(),
        limit <= 8,
        old(acc)@.len() == 0,
    ensures
        ({
            let (g, p, v4) = read_groups(s@, pos as int, 0, limit as nat, seq![]);
            &&& final(acc)@.map_values(|x: u64| x as nat) == g
            &&& r.0 == p
            &&& r.1 == v4
        }),
{
    let mut i: usize = 0;
    let mut p = pos;
    assert(acc@.map_values(|x: u64| x as nat) =~= Seq::<nat>::empty());
    while i < limit
        invariant
            i <= limit <= 8,
            pos <= p <= s@.len(),
            acc@.len() == i,
            forall|j: int| 0 <= j < acc@.len() ==> acc@[j] <= 0xffff,
            read_groups(s@, pos as int, 0, limit as nat, seq![]) == read_groups(
                s@,
                p as int,
                i as nat,
                limit as nat,
                acc@.map_values(|x: u64| x as nat),
            ),
        decreases limit - i,
    {
        let ghost cur = acc@.map_values(|x: u64| x as nat);
        if i + 1 < limit {
            match group_v4(s, p, i) {
                Some((q0, q1, q2, q3, np)) => {
                    let hi: u64 = (q0 as u64) * 256 + (q1 as u64);
                    let lo: u64 = (q2 as u64) * 256 + (q3 as u64);
                    acc.push(hi);
                    acc.push(lo);
                    assert(acc@.map_values(|x: u64| x as nat) =~= cur + seq![
                        q0 as nat * 256 + q1 as nat,
                        q2 as nat * 256 + q3 as nat,
                    ]);
                    return (np, true);
                },
                None => {},
            }
        }
        match group_hex(s, p, i) {
            None => {
                return (p, false);
            },
            Some((g, np)) => {
                proof {
                    if i == 0 {
                        lemma_read_number_bounds(s@, p as int, true, Some(4), true, 0xffff);
                    } else {
                        lemma_read_number_bounds(s@, p + 1, true, Some(4), true, 0xffff);
                    }
                }
                acc.push(g);
                assert(acc@.map_values(|x: u64| x as nat) =~= cur.push(g as nat));
                p = np;
                i = i + 1;
            },
        }
    }
    (p, false)
}

/// `read_ipv6` on `s` from `pos`: the eight groups and the position after.
fn read_v6(s: &[char], pos: usize) -> (r: Option<(Vec<u64>, usize)>)
    requires
        pos <= s@.len(),
    ensures
        match read_ipv6(s@, pos as int) {
            Some((g, e)) => r matches Some((v, p)) && p == e && v@.map_values(|x: u64| x as nat)
                == g && v@.len() == 8 && forall|j: int| 0 <= j < 8 ==> v@[j] <= 0xffff,
            None => r is None,
        },
{
    let mut head: Vec<u64> = Vec::new();
    let (p1, v4) = groups_from(s, pos, 8, &mut head);
    proof {
        lemma_read_groups_bounds(s@, pos as int, 0, 8, seq![]);
    }
    let ghost hv = head@.map_values(|x: u64| x as nat);
    assert(forall|j: int| 0 <= j < head@.len() ==> head@[j] <= 0xffff) by {
        assert forall|j: int| 0 <= j < head@.len() implies head@[j] <= 0xffff by {
            assert(hv[j] == head@[j] as nat);
        }
    }
    if head.len() == 8 {
        return Some((head, p1));
    }
    if v4 {
        return None;
    }
    if !(p1 < s.len() && s.len() - p1 >= 2 && s[p1] == ':' && s[p1 + 1] == ':') {
        return None;
    }
    let limit = 8 - (head.len() + 1);
    let mut tail: Vec<u64> = Vec::new();
    let (p2, _) = groups_from(s, p1 + 2, limit, &mut tail);
    proof {
        lemma_read_groups_bounds(s@, p1 + 2, 0, limit as nat, seq![]);
    }
    let ghost tv = tail@.map_values(|x: u64| x as nat);
    assert(forall|j: int| 0 <= j < tail@.len() ==> tail@[j] <= 0xffff) by {
        assert forall|j: int| 0 <= j < tail@.len() implies tail@[j] <= 0xffff by {
            assert(tv[j] == tail@[j] as nat);
        }
    }
    let zeros = 8 - head.len() - tail.len();
    let mut out = head;
    let mut k: usize = 0;
    while k < zeros
        invariant
            k <= zeros,
            zeros == 8 - hv.len() - tv.len(),
            out@.map_values(|x: u64| x as nat) == hv + Seq::new(k as nat, |j: int| 0nat),
            out@.len() == hv.len() + k,
            forall|j: int| 0 <= j < out@.len() ==> out@[j] <= 0xffff,
        decreases zeros - k,
    {
        let ghost before = out@;
        out.push(0);
        assert(out@ == before.push(0u64));
        assert(out@.map_values(|x: u64| x as nat) =~= before.map_values(|x: u64| x as nat).push(
            0nat,
        ));
        k = k + 1;
        assert(out@.map_values(|x: u64| x as nat) =~= hv + Seq::new(k as nat, |j: int| 0nat));
    }
    let mut m: usize = 0;
    while m < tail.len()
        invariant
            m <= tail@.len(),
            tv == tail@.map_values(|x: u64| x as nat),
            forall|j: int| 0 <= j < tail@.len() ==> tail@[j] <= 0xffff,
            out@.map_values(|x: u64| x as nat) == hv + Seq::new(zeros as nat, |j: int| 0nat)
                + tv.take(m as int),
            out@.len() == hv.len() + zeros + m,
            forall|j: int| 0 <= j < out@.len() ==> out@[j] <= 0xffff,
        decreases tail@.len() - m,
    {
        let ghost before = out@;
        out.push(tail[m]);
        assert(out@.map_values(|x: u64| x as nat) =~= before.map_values(|x: u64| x as nat).push(
            tail@[m as int] as nat,
        ));
        assert(tv.take(m + 1 as int) =~= tv.take(m as int).push(tv[m as int]));
        m = m + 1;
        assert(out@.map_values(|x: u64| x as nat) =~= hv + Seq::new(zeros as nat, |j: int| 0nat)
            + tv.take(m as int));
    }
    assert(tv.take(tail@.len() as int) =~= tv);
    Some((out, p2))
}

/// The socket address that `s` spells, if any.
pub fn parse_endpoint(s: &[char]) -> (r: Option<Endpoint>)
    ensures
        r == parse_socket_addr(s@),
{
    proof {
        lemma_read_ipv4_bounds(s@, 0);
    }
    match read_v4(s, 0) {
        Some((q0, q1, q2, q3, p)) => {
            if p < s.len() && s[p] == ':' {
                match read_num(s, p + 1, false, 0, true, 0xffff) {
                    Some((port, e)) => {
                        if e == s.len() {
                            Some(
                                Endpoint {
                                    ip: IpAddress::V4(q0, q1, q2, q3),
                                    port: port as u16,
                                    scope_id: 0,
                                },
                            )
                        } else {
                            None
                        }
                    },
                    None => None,
                }
            } else {
                None
            }
        },
        None => {
            if 0 < s.len() && s[0] == '[' {
                match read_v6(s, 1) {
                    Some((g, p)) => {
                        let mut scope: u64 = 0;
                        let mut q = p;
                        if p < s.len() && s[p] == '%' {
                            proof {
                                lemma_read_number_bounds(s@, p + 1, false, None, true, 0xffff_ffff);
                            }
                            match read_num(s, p + 1, false, 0, true, 0xffff_ffff) {
                                Some((sc, e)) => {
                                    scope = sc;
                                    q = e;
                                },
                                None => {},
                            }
                        }
                        assert(scope_part(s@, p as int) == (scope as nat, q as int));
                        if q < s.len() && s.len() - q >= 2 && s[q] == ']' && s[q + 1] == ':' {
                            proof {
                                lemma_read_number_bounds(s@, q + 2, false, None, true, 0xffff);
                            }
                            match read_num(s, q + 2, false, 0, true, 0xffff) {
                                Some((port, e)) => {
                                    if e == s.len() {
                                        let ghost gv = g@.map_values(|x: u64| x as nat);
                                        assert(gv[0] == g@[0] as nat);
                                        assert(gv[1] == g@[1] as nat);
                                        assert(gv[2] == g@[2] as nat);
                                        assert(gv[3] == g@[3] as nat);
                                        assert(gv[4] == g@[4] as nat);
                                        assert(gv[5] == g@[5] as nat);
                                        assert(gv[6] == g@[6] as nat);
                                        assert(gv[7] == g@[7] as nat);
                                        Some(
                                            Endpoint {
                                                ip: IpAddress::V6(
                                                    g[0] as u16,
                                                    g[1] as u16,
                                                    g[2] as u16,
                                                    g[3] as u16,
                                                    g[4] as u16,
                                                    g[5] as u16,
                                                    g[6] as u16,
                                                    g[7] as u16,
                                                ),
                                                port: port as u16,
                                                scope_id: scope as u32,
                                            },
                                        )
                                    } else {
                                        None
                                    }
                                },
                                None => None,
                            }
                        } else {
                            None
                        }
                    },
                    None => None,
                }
            } else {
                None
            }
        },
    }
}

/// The IP address that `s` spells, if any.
pub fn parse_ip_chars(s: &[char]) -> (r: Option<IpAddress>)
    ensures
        r == parse_ip(s@),
{
    match read_v4(s, 0) {
        Some((q0, q1, q2, q3, p)) => {
            if p == s.len() {
                Some(IpAddress::V4(q0, q1, q2, q3))
            } else {
                None
            }
        },
        None => match read_v6(s, 0) {
            Some((g, p)) => {
                if p == s.len() {
                    let ghost gv = g@.map_values(|x: u64| x as nat);
                    assert(gv[0] == g@[0] as nat && gv[1] == g@[1] as nat && gv[2] == g@[2] as nat
                        && gv[3] == g@[3] as nat && gv[4] == g@[4] as nat && gv[5] == g@[5] as nat
                        && gv[6] == g@[6] as nat && gv[7] == g@[7] as nat);
                    Some(
                        IpAddress::V6(
                            g[0] as u16,
                            g[1] as u16,
                            g[2] as u16,
                            g[3] as u16,
                            g[4] as u16,
                            g[5] as u16,
                            g[6] as u16,
                            g[7] as u16,
                        ),
                    )
                } else {
                    None
                }
            },
            None => None,
        },
    }
}

/// The IP address that a text spells, if any (`IpAddr::from_str`).
pub fn parse_ip_text(text: &str) -> (r: Option<IpAddress>)
    ensures
        r == parse_ip(text@),
{
    let v = crate::text::chars_of(text);
    parse_ip_chars(&v)
}

// ---------------------------------------------------------------------------
// Writing
// ---------------------------------------------------------------------------

fn digit_character(d: u64) -> (r: char)
    requires
        d < 16,
    ensures
        r == digit_char(d as nat),
{
    if d < 10 {
        ((48 + d) as u8) as char
    } else {
        ((87 + d) as u8) as char
    }
}

/// Appends the decimal digits of `n`.
pub fn write_decimal(out: &mut Vec<char>, n: u64)
    ensures
        final(out)@ == old(out)@ + decimal(n as nat),
    decreases n,
{
    if n >= 10 {
        write_decimal(out, n / 10);
    }
    out.push(digit_character(n % 10));
    assert(out@ =~= old(out)@ + decimal(n as nat));
}

/// Appends the hexadecimal digits of `n`.
pub fn write_hex(out: &mut Vec<char>, n: u64)
    ensures
        final(out)@ == old(out)@ + hexadecimal(n as nat),
    decreases n,
{
    if n >= 16 {
        write_hex(out, n / 16);
    }
    out.push(digit_character(n % 16));
    assert(out@ =~= old(out)@ + hexadecimal(n as nat));
}

proof fn lemma_join_push(g: Seq<u16>, x: u16)
    requires
        g.len() > 0,
    ensures
        join_groups(g.push(x)) == join_groups(g) + seq![':'] + hexadecimal(x as nat),
    decreases g.len(),
{
    if g.len() == 1 {
        assert(g.push(x).drop_first() =~= seq![x]);
        assert(join_groups(seq![x]) == hexadecimal(x as nat));
        assert(join_groups(g) == hexadecimal(g[0] as nat));
        assert(g.push(x)[0] == g[0]);
    } else {
        lemma_join_push(g.drop_first(), x);
        assert(g.push(x).drop_first() =~= g.drop_first().push(x));
        assert(g.push(x)[0] == g[0]);
        assert(join_groups(g.push(x)) =~= join_groups(g) + seq![':'] + hexadecimal(x as nat));
    }
}

/// Appends the groups `g[from..to]` separated by `:`.
fn write_groups(out: &mut Vec<char>, g: &[u16], from: usize, to: usize)
    requires
        from <= to <= g@.len(),
    ensures
        final(out)@ == old(out)@ + join_groups(g@.subrange(from as int, to as int)),
{
    let mut i = from;
    assert(g@.subrange(from as int, from as int) =~= Seq::<u16>::empty());
    while i < to
        invariant
            from <= i <= to <= g@.len(),
            out@ == old(out)@ + join_groups(g@.subrange(from as int, i as int)),
        decreases to - i,
    {
        let ghost prev = g@.subrange(from as int, i as int);
        if i > from {
            out.push(':');
        }
        write_hex(out, g[i] as u64);
        proof {
            assert(g@.subrange(from as int, i + 1) =~= prev.push(g@[i as int]));
            if i > from {
                lemma_join_push(prev, g@[i as int]);
            } else {
                assert(prev.push(g@[i as int]) =~= seq![g@[i as int]]);
            }
        }
        i = i + 1;
        assert(out@ =~= old(out)@ + join_groups(g@.subrange(from as int, i as int)));
    }
}

/// The longest run of zero groups (start, length); the first of equals.
fn longest_zero_run(g: &[u16]) -> (r: (usize, usize))
    ensures
        zero_run(g@, 0, (0, 0), (0, 0)) == (r.0 as int, r.1 as int),
        r.0 + r.1 <= g@.len(),
{
    let mut cur: (usize, usize) = (0, 0);
    let mut best: (usize, usize) = (0, 0);
    let mut i: usize = 0;
    while i < g.len()
        invariant
            i <= g@.len(),
            cur.0 + cur.1 <= i,
            best.0 + best.1 <= i,
            zero_run(g@, 0, (0, 0), (0, 0)) == zero_run(
                g@,
                i as int,
                (cur.0 as int, cur.1 as int),
                (best.0 as int, best.1 as int),
            ),
        decreases g@.len() - i,
    {
        if g[i] == 0 {
            if cur.1 == 0 {
                cur = (i, 1);
            } else {
                cur = (cur.0, cur.1 + 1);
            }
            if cur.1 > best.1 {
                best = cur;
            }
        } else {
            cur = (0, 0);
        }
        i = i + 1;
    }
    best
}

/// Appends the text of an IPv4 address.
fn write_ipv4(out: &mut Vec<char>, a: u8, b: u8, c: u8, d: u8)
    ensures
        final(out)@ == old(out)@ + ipv4_text(a, b, c, d),
{
    write_decimal(out, a as u64);
    out.push('.');
    write_decimal(out, b as u64);
    out.push('.');
    write_decimal(out, c as u64);
    out.push('.');
    write_decimal(out, d as u64);
    assert(out@ =~= old(out)@ + ipv4_text(a, b, c, d));
}

/// Appends the text of an IP address.
pub fn write_ip(out: &mut Vec<char>, ip: &IpAddress)
    ensures
        final(out)@ == old(out)@ + ip_text(*ip),
{
    match ip {
        IpAddress::V4(a, b, c, d) => {
            write_ipv4(out, *a, *b, *c, *d);
        },
        IpAddress::V6(s0, s1, s2, s3, s4, s5, s6, s7) => {
            if *s0 == 0 && *s1 == 0 && *s2 == 0 && *s3 == 0 && *s4 == 0 && *s5 == 0xffff {
                let prefix = crate::text::chars_of("::ffff:");
                let mut k: usize = 0;
                while k < prefix.len()
                    invariant
                        k <= prefix@.len(),
                        out@ == old(out)@ + prefix@.take(k as int),
                    decreases prefix@.len() - k,
                {
                    out.push(prefix[k]);
                    k = k + 1;
                    assert(out@ =~= old(out)@ + prefix@.take(k as int));
                }
                assert(prefix@.take(prefix@.len() as int) =~= prefix@);
                write_ipv4(
                    out,
                    (*s6 / 256) as u8,
                    (*s6 % 256) as u8,
                    (*s7 / 256) as u8,
                    (*s7 % 256) as u8,
                );
                assert(out@ =~= old(out)@ + ip_text(*ip));
            } else {
                let g: [u16; 8] = [*s0, *s1, *s2, *s3, *s4, *s5, *s6, *s7];
                assert(g@ =~= groups(*ip));
                let z = longest_zero_run(&g);
                if z.1 > 1 {
                    write_groups(out, &g, 0, z.0);
                    out.push(':');
                    out.push(':');
                    write_groups(out, &g, z.0 + z.1, 8);
                    proof {
                        reveal_strlit("::");
                        assert(g@.subrange(0, z.0 as int) =~= g@.take(z.0 as int));
                        assert(g@.subrange(z.0 + z.1, 8) =~= g@.skip(z.0 + z.1));
                    }
                    assert(out@ =~= old(out)@ + ip_text(*ip));
                } else {
                    write_groups(out, &g, 0, 8);
                    assert(g@.subrange(0, 8) =~= g@);
                }
            }
        },
    }
}

/// The text of an IP address (`IpAddr`'s `Display`).
pub fn ip_string(ip: &IpAddress) -> (r: String)
    ensures
        r@ == ip_text(*ip),
{
    let mut v: Vec<char> = Vec::new();
    write_ip(&mut v, ip);
    assert(v@ =~= ip_text(*ip));
    let mut r = String::new();
    crate::text::push_all(&mut r, &v);
    r
}

/// The text of a socket address (`SocketAddr`'s `Display`).
pub fn endpoint_string(e: &Endpoint) -> (r: String)
    ensures
        r@ == endpoint_text(*e),
{
    let mut v: Vec<char> = Vec::new();
    match e.ip {
        IpAddress::V4(..) => {
            write_ip(&mut v, &e.ip);
            v.push(':');
            write_decimal(&mut v, e.port as u64);
        },
        IpAddress::V6(..) => {
            v.push('[');
            write_ip(&mut v, &e.ip);
            if e.scope_id != 0 {
                v.push('%');
                write_decimal(&mut v, e.scope_id as u64);
            }
            v.push(']');
            v.push(':');
            write_decimal(&mut v, e.port as u64);
        },
    }
    assert(v@ =~= endpoint_text(*e));
    let mut r = String::new();
    crate::text::push_all(&mut r, &v);
    r
}

} // verus!
