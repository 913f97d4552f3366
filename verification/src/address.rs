//! Who a datagram came from, or goes to.

use crate::decimal::{
    digits, is_number_byte, lemma_digits_canonical, lemma_run_end, lemma_run_end_bounds,
    lemma_u32_of_text, parse_u32, push_u32, run_end, scan_number, u32_of_text,
};
use vstd::prelude::*;
use vstd::string::StringSliceAdditionalSpecFns;

verus! {

/// ASCII `.`.
pub const DOT: u8 = 0x2e;

/// ASCII `:`.
pub const COLON: u8 = 0x3a;

/// ASCII `%`.
pub const PERCENT: u8 = 0x25;

/// ASCII `[`.
pub const BRACKET_OPEN: u8 = 0x5b;

/// ASCII `]`.
pub const BRACKET_CLOSE: u8 = 0x5d;

/// A network endpoint: an IP address and a port.
///
/// The transport never looks inside an address. It compares addresses,
/// keys the registry of peers by them, and hands them back in events.
#[derive(Clone, Copy, Debug, PartialEq, Eq, Hash, Structural)]
#[allow(inconsistent_fields)]
pub enum PeerAddress {
    /// An IPv4 endpoint; `ip` holds the four octets, the first one highest.
    V4 { ip: u32, port: u16 },
    /// An IPv6 endpoint; `ip` holds the sixteen octets, the first one
    /// highest.
    V6 { ip: u128, port: u16, flowinfo: u32, scope_id: u32 },
}

/// The IPv4 address with the octets `a`, `b`, `c`, `d`, in this order.
pub open spec fn ipv4(a: u8, b: u8, c: u8, d: u8) -> u32 {
    (a * 0x100_0000 + b * 0x1_0000 + c * 0x100 + d) as u32
}

/// The text of an IPv4 endpoint: `a.b.c.d:port`, all five in decimal.
pub open spec fn v4_text(a: u8, b: u8, c: u8, d: u8, port: u16) -> Seq<u8> {
    digits(a as nat) + seq![DOT] + digits(b as nat) + seq![DOT] + digits(c as nat) + seq![DOT]
        + digits(d as nat) + seq![COLON] + digits(port as nat)
}

/// The hexadecimal digit for `d`, in lower case.
pub open spec fn hex_digit(d: nat) -> u8 {
    if d < 10 {
        (0x30 + d) as u8
    } else {
        (0x61 + (d - 10)) as u8
    }
}

/// The hexadecimal digits of `n`, most significant first.
pub open spec fn hex_digits(n: nat) -> Seq<u8>
    decreases n,
{
    if n < 16 {
        seq![hex_digit(n)]
    } else {
        hex_digits(n / 16).push(hex_digit(n % 16))
    }
}

/// The lowest `count` 16-bit groups of `ip` in hexadecimal, the highest of
/// them first, with colons between them.
pub open spec fn groups_text(ip: u128, count: nat) -> Seq<u8>
    decreases count,
{
    if count <= 1 {
        hex_digits(ip as nat % 0x1_0000)
    } else {
        groups_text(ip / 0x1_0000, (count - 1) as nat) + seq![COLON] + hex_digits(
            ip as nat % 0x1_0000,
        )
    }
}

/// The text of an IPv6 endpoint: `[g:g:g:g:g:g:g:g]:port`, the eight groups
/// in hexadecimal and written out in full, the port in decimal. A scope
/// other than 0 stands behind the groups as `%` and its number.
pub open spec fn v6_text(ip: u128, port: u16, scope_id: u32) -> Seq<u8> {
    let scope = if scope_id == 0 {
        Seq::<u8>::empty()
    } else {
        seq![PERCENT] + digits(scope_id as nat)
    };
    seq![BRACKET_OPEN] + groups_text(ip, 8) + scope + seq![BRACKET_CLOSE, COLON] + digits(
        port as nat,
    )
}

impl PeerAddress {
    /// The text of this endpoint: `a.b.c.d:port` or `[g:..:g]:port`. The
    /// flow label of an IPv6 endpoint has no place in it.
    pub open spec fn text(self) -> Seq<u8> {
        match self {
            PeerAddress::V4 { ip, port } => v4_text(
                (ip / 0x100_0000) as u8,
                (ip / 0x1_0000 % 0x100) as u8,
                (ip / 0x100 % 0x100) as u8,
                (ip % 0x100) as u8,
                port,
            ),
            PeerAddress::V6 { ip, port, flowinfo, scope_id } => v6_text(ip, port, scope_id),
        }
    }
}

/// Whether `text` is the text of some IPv4 endpoint.
pub open spec fn is_v4_text(text: Seq<u8>) -> bool {
    exists|address: PeerAddress| address is V4 && text == address.text()
}

/// The IPv4 endpoint whose text `text` is, if there is one.
pub open spec fn v4_of_text(text: Seq<u8>) -> Option<PeerAddress> {
    if is_v4_text(text) {
        Some(choose|address: PeerAddress| address is V4 && text == address.text())
    } else {
        None
    }
}

/// What reading `text` as an IPv4 endpoint gives, step by step: four runs
/// of number bytes with a dot behind the first three and a colon behind
/// the fourth, and a fifth run up to the end.
spec fn parse_v4(text: Seq<u8>) -> Option<(u8, u8, u8, u8, u16)> {
    let a_end = run_end(text, 0);
    let b_end = run_end(text, a_end + 1);
    let c_end = run_end(text, b_end + 1);
    let d_end = run_end(text, c_end + 1);
    let a = u32_of_text(text.subrange(0, a_end), 255);
    let b = u32_of_text(text.subrange(a_end + 1, b_end), 255);
    let c = u32_of_text(text.subrange(b_end + 1, c_end), 255);
    let d = u32_of_text(text.subrange(c_end + 1, d_end), 255);
    let port = u32_of_text(text.subrange(d_end + 1, text.len() as int), 65535);
    if a_end < text.len() && text[a_end] == DOT && b_end < text.len() && text[b_end] == DOT
        && c_end < text.len() && text[c_end] == DOT && d_end < text.len() && text[d_end] == COLON
        && a is Some && b is Some && c is Some && d is Some && port is Some {
        Some((a->0 as u8, b->0 as u8, c->0 as u8, d->0 as u8, port->0 as u16))
    } else {
        None
    }
}

/// Where the parts of an IPv4 endpoint's text lie.
proof fn lemma_v4_layout(a: u8, b: u8, c: u8, d: u8, port: u16)
    ensures
        ({
            let t = v4_text(a, b, c, d, port);
            let a_end: int = digits(a as nat).len() as int;
            let b_end: int = a_end + 1 + digits(b as nat).len();
            let c_end: int = b_end + 1 + digits(c as nat).len();
            let d_end: int = c_end + 1 + digits(d as nat).len();
            &&& t.len() == d_end + 1 + digits(port as nat).len()
            &&& t.subrange(0, a_end) == digits(a as nat)
            &&& t[a_end] == DOT
            &&& t.subrange(a_end + 1, b_end) == digits(b as nat)
            &&& t[b_end] == DOT
            &&& t.subrange(b_end + 1, c_end) == digits(c as nat)
            &&& t[c_end] == DOT
            &&& t.subrange(c_end + 1, d_end) == digits(d as nat)
            &&& t[d_end] == COLON
            &&& t.subrange(d_end + 1, t.len() as int) == digits(port as nat)
        }),
{
    let t = v4_text(a, b, c, d, port);
    let a_end: int = digits(a as nat).len() as int;
    let b_end: int = a_end + 1 + digits(b as nat).len();
    let c_end: int = b_end + 1 + digits(c as nat).len();
    let d_end: int = c_end + 1 + digits(d as nat).len();
    assert(t.subrange(0, a_end) =~= digits(a as nat));
    assert(t.subrange(a_end + 1, b_end) =~= digits(b as nat));
    assert(t.subrange(b_end + 1, c_end) =~= digits(c as nat));
    assert(t.subrange(c_end + 1, d_end) =~= digits(d as nat));
    assert(t.subrange(d_end + 1, t.len() as int) =~= digits(port as nat));
}

/// The run of number bytes at `start` is the number's digits, if those
/// digits stand there with a byte behind them that no number holds.
proof fn lemma_digits_end(text: Seq<u8>, start: int, n: nat)
    requires
        0 <= start,
        start + digits(n).len() < text.len(),
        text.subrange(start, start + digits(n).len()) == digits(n),
        !is_number_byte(text[start + digits(n).len()]),
    ensures
        run_end(text, start) == start + digits(n).len(),
{
    let end = start + digits(n).len();
    lemma_digits_canonical(n);
    assert forall|k: int| start <= k < end implies is_number_byte(#[trigger] text[k]) by {
        assert(text[k] == digits(n)[k - start]);
    }
    lemma_run_end(text, start, end);
}

/// Reading the text of an IPv4 endpoint gives its octets and its port.
proof fn lemma_parse_v4_complete(a: u8, b: u8, c: u8, d: u8, port: u16)
    ensures
        parse_v4(v4_text(a, b, c, d, port)) == Some((a, b, c, d, port)),
{
    let t = v4_text(a, b, c, d, port);
    lemma_v4_layout(a, b, c, d, port);
    let a_end: int = digits(a as nat).len() as int;
    let b_end: int = a_end + 1 + digits(b as nat).len();
    let c_end: int = b_end + 1 + digits(c as nat).len();
    let d_end: int = c_end + 1 + digits(d as nat).len();
    lemma_digits_end(t, 0, a as nat);
    lemma_digits_end(t, a_end + 1, b as nat);
    lemma_digits_end(t, b_end + 1, c as nat);
    lemma_digits_end(t, c_end + 1, d as nat);
    lemma_u32_of_text(a as u32, 255);
    lemma_u32_of_text(b as u32, 255);
    lemma_u32_of_text(c as u32, 255);
    lemma_u32_of_text(d as u32, 255);
    lemma_u32_of_text(port as u32, 65535);
}

/// Bytes that read as an IPv4 endpoint are that endpoint's text.
proof fn lemma_parse_v4_sound(text: Seq<u8>)
    requires
        parse_v4(text) is Some,
    ensures
        ({
            let (a, b, c, d, port) = parse_v4(text)->0;
            text == v4_text(a, b, c, d, port)
        }),
{
    let (a, b, c, d, port) = parse_v4(text)->0;
    let a_end = run_end(text, 0);
    let b_end = run_end(text, a_end + 1);
    let c_end = run_end(text, b_end + 1);
    let d_end = run_end(text, c_end + 1);
    lemma_run_end_bounds(text, 0);
    lemma_run_end_bounds(text, a_end + 1);
    lemma_run_end_bounds(text, b_end + 1);
    lemma_run_end_bounds(text, c_end + 1);
    let ta = text.subrange(0, a_end);
    let tb = text.subrange(a_end + 1, b_end);
    let tc = text.subrange(b_end + 1, c_end);
    let td = text.subrange(c_end + 1, d_end);
    let tp = text.subrange(d_end + 1, text.len() as int);
    assert(ta == digits(a as nat));
    assert(tb == digits(b as nat));
    assert(tc == digits(c as nat));
    assert(td == digits(d as nat));
    assert(tp == digits(port as nat));
    assert(text =~= ta + seq![DOT] + tb + seq![DOT] + tc + seq![DOT] + td + seq![COLON] + tp);
}

/// The octets of an IPv4 address make up that address.
pub proof fn lemma_octets_make_address(ip: u32)
    ensures
        ipv4(
            (ip / 0x100_0000) as u8,
            (ip / 0x1_0000 % 0x100) as u8,
            (ip / 0x100 % 0x100) as u8,
            (ip % 0x100) as u8,
        ) == ip,
{
    let x = ip as int;
    let q1 = x / 0x100;
    let q2 = q1 / 0x100;
    let q3 = q2 / 0x100;
    assert(q2 == x / 0x1_0000) by {
        vstd::arithmetic::div_mod::lemma_div_denominator(x, 0x100, 0x100);
    }
    assert(q3 == x / 0x100_0000) by {
        vstd::arithmetic::div_mod::lemma_div_denominator(x, 0x1_0000, 0x100);
    }
    assert(x == q1 * 0x100 + x % 0x100) by {
        vstd::arithmetic::div_mod::lemma_fundamental_div_mod(x, 0x100);
    }
    assert(q1 == q2 * 0x100 + q1 % 0x100) by {
        vstd::arithmetic::div_mod::lemma_fundamental_div_mod(q1, 0x100);
    }
    assert(q2 == q3 * 0x100 + q2 % 0x100) by {
        vstd::arithmetic::div_mod::lemma_fundamental_div_mod(q2, 0x100);
    }
    assert(0 <= q3 < 0x100);
    assert(x == q3 * 0x100_0000 + (q2 % 0x100) * 0x1_0000 + (q1 % 0x100) * 0x100 + x % 0x100);
}

/// An IPv4 address has the octets that it was made up of.
pub proof fn lemma_address_has_octets(a: u8, b: u8, c: u8, d: u8)
    ensures
        ipv4(a, b, c, d) / 0x100_0000 == a,
        ipv4(a, b, c, d) / 0x1_0000 % 0x100 == b,
        ipv4(a, b, c, d) / 0x100 % 0x100 == c,
        ipv4(a, b, c, d) % 0x100 == d,
{
    let x: int = a * 0x100_0000 + b * 0x1_0000 + c * 0x100 + d;
    assert(ipv4(a, b, c, d) == x);
    let q1: int = a * 0x1_0000 + b * 0x100 + c;
    let q2: int = a * 0x100 + b;
    vstd::arithmetic::div_mod::lemma_fundamental_div_mod_converse(x, 0x100, q1, d as int);
    vstd::arithmetic::div_mod::lemma_fundamental_div_mod_converse(
        x,
        0x1_0000,
        q2,
        c * 0x100 + d,
    );
    vstd::arithmetic::div_mod::lemma_fundamental_div_mod_converse(q1, 0x100, q2, c as int);
    vstd::arithmetic::div_mod::lemma_fundamental_div_mod_converse(q2, 0x100, a as int, b as int);
    vstd::arithmetic::div_mod::lemma_fundamental_div_mod_converse(
        x,
        0x100_0000,
        a as int,
        b * 0x1_0000 + c * 0x100 + d,
    );
    assert(x / 0x100 == q1);
    assert(x / 0x1_0000 == q2);
}

/// Reading the text of an IPv4 endpoint step by step gives its octets and
/// its port.
proof fn lemma_parse_v4_of_text(address: PeerAddress)
    requires
        address is V4,
    ensures
        parse_v4(address.text()) matches Some((a, b, c, d, port)) && address == (PeerAddress::V4 {
            ip: ipv4(a, b, c, d),
            port,
        }),
{
    let ip = address->V4_ip;
    lemma_octets_make_address(ip);
    lemma_parse_v4_complete(
        (ip / 0x100_0000) as u8,
        (ip / 0x1_0000 % 0x100) as u8,
        (ip / 0x100 % 0x100) as u8,
        (ip % 0x100) as u8,
        address->V4_port,
    );
}

/// Bytes that read as an IPv4 endpoint step by step are the text of the
/// endpoint that was read.
proof fn lemma_text_of_parse_v4(text: Seq<u8>)
    requires
        parse_v4(text) is Some,
    ensures
        ({
            let (a, b, c, d, port) = parse_v4(text)->0;
            text == (PeerAddress::V4 { ip: ipv4(a, b, c, d), port }).text()
        }),
{
    let (a, b, c, d, port) = parse_v4(text)->0;
    lemma_parse_v4_sound(text);
    lemma_address_has_octets(a, b, c, d);
}

/// No two IPv4 endpoints share a text.
pub proof fn lemma_text_injective(x: PeerAddress, y: PeerAddress)
    requires
        x is V4,
        y is V4,
        x.text() == y.text(),
    ensures
        x == y,
{
    lemma_parse_v4_of_text(x);
    lemma_parse_v4_of_text(y);
}

/// Reading the text of an IPv4 endpoint gives the endpoint back, and
/// nothing but its text reads as that endpoint.
pub proof fn lemma_text_round_trip(text: Seq<u8>, address: PeerAddress)
    ensures
        address is V4 ==> v4_of_text(address.text()) == Some(address),
        v4_of_text(text) == Some(address) <==> address is V4 && text == address.text(),
{
    if address is V4 {
        let written = address.text();
        assert(is_v4_text(written));
        let read = choose|read: PeerAddress| read is V4 && written == read.text();
        lemma_text_injective(read, address);
    }
}

/// Reading step by step finds exactly the endpoint whose text the bytes
/// are.
proof fn lemma_parse_v4_is_v4_of_text(text: Seq<u8>)
    ensures
        v4_of_text(text) == match parse_v4(text) {
            Some((a, b, c, d, port)) => Some(PeerAddress::V4 { ip: ipv4(a, b, c, d), port }),
            None => None,
        },
{
    match parse_v4(text) {
        Some((a, b, c, d, port)) => {
            let address = PeerAddress::V4 { ip: ipv4(a, b, c, d), port };
            lemma_text_of_parse_v4(text);
            lemma_text_round_trip(text, address);
        },
        None => {
            assert forall|address: PeerAddress| address is V4 implies text != address.text() by {
                lemma_parse_v4_of_text(address);
            }
        },
    }
}

/// Appends the hexadecimal digits of `n` to `out`.
fn push_hex(out: &mut Vec<u8>, n: u16)
    ensures
        final(out)@ == old(out)@ + hex_digits(n as nat),
    decreases n,
{
    if n >= 16 {
        push_hex(out, n / 16);
    }
    let d: u8 = (n % 16) as u8;
    if d < 10 {
        out.push(0x30 + d);
    } else {
        out.push(0x61 + (d - 10));
    }
    assert(out@ =~= old(out)@ + hex_digits(n as nat));
}

/// Appends the lowest `count` groups of `ip` to `out`.
fn push_groups(out: &mut Vec<u8>, ip: u128, count: u8)
    ensures
        final(out)@ == old(out)@ + groups_text(ip, count as nat),
    decreases count,
{
    if count > 1 {
        push_groups(out, ip / 0x1_0000, count - 1);
        out.push(COLON);
    }
    push_hex(out, (ip % 0x1_0000) as u16);
    assert(out@ =~= old(out)@ + groups_text(ip, count as nat));
}

impl PeerAddress {
    /// Writes this endpoint as text, for a log or a message to the user.
    pub fn to_text(&self) -> (text: Vec<u8>)
        ensures
            text@ == self.text(),
    {
        let mut text: Vec<u8> = Vec::new();
        match *self {
            PeerAddress::V4 { ip, port } => {
                push_u32(&mut text, ip / 0x100_0000);
                text.push(DOT);
                push_u32(&mut text, ip / 0x1_0000 % 0x100);
                text.push(DOT);
                push_u32(&mut text, ip / 0x100 % 0x100);
                text.push(DOT);
                push_u32(&mut text, ip % 0x100);
                text.push(COLON);
                push_u32(&mut text, port as u32);
                assert(text@ =~= self.text());
            },
            PeerAddress::V6 { ip, port, flowinfo, scope_id } => {
                text.push(BRACKET_OPEN);
                push_groups(&mut text, ip, 8);
                if scope_id != 0 {
                    text.push(PERCENT);
                    push_u32(&mut text, scope_id);
                }
                text.push(BRACKET_CLOSE);
                text.push(COLON);
                push_u32(&mut text, port as u32);
                assert(text@ =~= self.text());
            },
        }
        text
    }

    /// The IPv4 endpoint with the octets `a`, `b`, `c`, `d` and `port`.
    pub fn v4(a: u8, b: u8, c: u8, d: u8, port: u16) -> (address: Self)
        ensures
            address == (PeerAddress::V4 { ip: ipv4(a, b, c, d), port }),
    {
        let ip: u32 = (a as u32) * 0x100_0000 + (b as u32) * 0x1_0000 + (c as u32) * 0x100 + (
        d as u32);
        PeerAddress::V4 { ip, port }
    }

    /// Reads `text` as an IPv4 endpoint, written `a.b.c.d:port`.
    ///
    /// Each number must be written as plainly as can be: decimal, no sign,
    /// no leading zero. Everything else is turned down.
    pub fn parse(text: &[u8]) -> (address: Option<Self>)
        ensures
            address == v4_of_text(text@),
    {
        proof {
            lemma_parse_v4_is_v4_of_text(text@);
        }
        let a_end: usize = scan_number(text, 0);
        if a_end >= text.len() || text[a_end] != DOT {
            return None;
        }
        let b_end: usize = scan_number(text, a_end + 1);
        if b_end >= text.len() || text[b_end] != DOT {
            return None;
        }
        let c_end: usize = scan_number(text, b_end + 1);
        if c_end >= text.len() || text[c_end] != DOT {
            return None;
        }
        let d_end: usize = scan_number(text, c_end + 1);
        if d_end >= text.len() || text[d_end] != COLON {
            return None;
        }
        let a = parse_u32(&text[0..a_end], 255);
        let b = parse_u32(&text[a_end + 1..b_end], 255);
        let c = parse_u32(&text[b_end + 1..c_end], 255);
        let d = parse_u32(&text[c_end + 1..d_end], 255);
        let port = parse_u32(&text[d_end + 1..text.len()], 65535);
        match (a, b, c, d, port) {
            (Some(a), Some(b), Some(c), Some(d), Some(port)) => Some(
                Self::v4(a as u8, b as u8, c as u8, d as u8, port as u16),
            ),
            _ => None,
        }
    }
}

/// Why a text is no endpoint.
#[derive(Clone, Copy, Debug, PartialEq, Eq, Structural)]
pub struct AddressParseError;

impl std::str::FromStr for PeerAddress {
    type Err = AddressParseError;

    fn from_str(text: &str) -> (address: Result<Self, AddressParseError>)
        ensures
            address == match v4_of_text(text.spec_bytes()) {
                Some(address) => Ok::<PeerAddress, AddressParseError>(address),
                None => Err(AddressParseError),
            },
    {
        match PeerAddress::parse(text.as_bytes()) {
            Some(address) => Ok(address),
            None => Err(AddressParseError),
        }
    }
}

} // verus!
