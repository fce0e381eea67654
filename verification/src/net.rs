//! Ports, TCP states and addresses, as the system's network tables hold them and
//! as the logs write them.

use vstd::prelude::*;
use vstd::string::*;
use vstd::utf8;
use crate::text;
use crate::text::{buffer_text, decimal_string};

verus! {

broadcast use vstd::seq_lib::group_seq_properties;

/// The first port that the system hands out by itself.
pub const FIRST_EPHEMERAL_PORT: u16 = 49152;

/// The hint that stands for the port `p`, empty where there is none.
pub open spec fn service_name(p: u16) -> Seq<char> {
    match p {
        80 => "HTTP"@,
        443 => "HTTPS"@,
        8443 => "HTTPS-alt"@,
        8080 => "HTTP-proxy"@,
        3478 => "STUN/TURN"@,
        3479 => "STUN/TURN-alt"@,
        5222 => "XMPP"@,
        5223 => "XMPP-TLS"@,
        2099 => "Riot-login"@,
        8393 => "Riot-launcher"@,
        9339 => "Riot-patch"@,
        123 => "NTP"@,
        53 => "DNS"@,
        _ => if p >= FIRST_EPHEMERAL_PORT { "ephemeral"@ } else { ""@ },
    }
}

/// The hint for what a port is commonly used for.
pub fn port_service(p: u16) -> (s: &'static str)
    ensures
        s@ == service_name(p),
{
    match p {
        80 => "HTTP",
        443 => "HTTPS",
        8443 => "HTTPS-alt",
        8080 => "HTTP-proxy",
        3478 => "STUN/TURN",
        3479 => "STUN/TURN-alt",
        5222 => "XMPP",
        5223 => "XMPP-TLS",
        2099 => "Riot-login",
        8393 => "Riot-launcher",
        9339 => "Riot-patch",
        123 => "NTP",
        53 => "DNS",
        _ => if p >= FIRST_EPHEMERAL_PORT { "ephemeral" } else { "" },
    }
}

/// The status that the system's calls return on success.
pub const NO_ERROR: u32 = 0;

pub const MIB_TCP_STATE_CLOSED: u32 = 1;

pub const MIB_TCP_STATE_LISTEN: u32 = 2;

pub const MIB_TCP_STATE_SYN_SENT: u32 = 3;

pub const MIB_TCP_STATE_SYN_RCVD: u32 = 4;

pub const MIB_TCP_STATE_ESTAB: u32 = 5;

pub const MIB_TCP_STATE_FIN_WAIT1: u32 = 6;

pub const MIB_TCP_STATE_FIN_WAIT2: u32 = 7;

pub const MIB_TCP_STATE_CLOSE_WAIT: u32 = 8;

pub const MIB_TCP_STATE_CLOSING: u32 = 9;

pub const MIB_TCP_STATE_LAST_ACK: u32 = 10;

pub const MIB_TCP_STATE_TIME_WAIT: u32 = 11;

/// The name of the TCP state `s`.
pub open spec fn state_name(s: u32) -> Seq<char> {
    if s == MIB_TCP_STATE_CLOSED {
        "CLOSED"@
    } else if s == MIB_TCP_STATE_LISTEN {
        "LISTEN"@
    } else if s == MIB_TCP_STATE_SYN_SENT {
        "SYN_SENT"@
    } else if s == MIB_TCP_STATE_SYN_RCVD {
        "SYN_RCVD"@
    } else if s == MIB_TCP_STATE_ESTAB {
        "ESTABLISHED"@
    } else if s == MIB_TCP_STATE_FIN_WAIT1 {
        "FIN_WAIT1"@
    } else if s == MIB_TCP_STATE_FIN_WAIT2 {
        "FIN_WAIT2"@
    } else if s == MIB_TCP_STATE_CLOSE_WAIT {
        "CLOSE_WAIT"@
    } else if s == MIB_TCP_STATE_CLOSING {
        "CLOSING"@
    } else if s == MIB_TCP_STATE_LAST_ACK {
        "LAST_ACK"@
    } else if s == MIB_TCP_STATE_TIME_WAIT {
        "TIME_WAIT"@
    } else {
        "?"@
    }
}

/// The name of a TCP state, `?` for a value that is none.
pub fn tcp_state_name(s: u32) -> (name: &'static str)
    ensures
        name@ == state_name(s),
{
    match s {
        MIB_TCP_STATE_CLOSED => "CLOSED",
        MIB_TCP_STATE_LISTEN => "LISTEN",
        MIB_TCP_STATE_SYN_SENT => "SYN_SENT",
        MIB_TCP_STATE_SYN_RCVD => "SYN_RCVD",
        MIB_TCP_STATE_ESTAB => "ESTABLISHED",
        MIB_TCP_STATE_FIN_WAIT1 => "FIN_WAIT1",
        MIB_TCP_STATE_FIN_WAIT2 => "FIN_WAIT2",
        MIB_TCP_STATE_CLOSE_WAIT => "CLOSE_WAIT",
        MIB_TCP_STATE_CLOSING => "CLOSING",
        MIB_TCP_STATE_LAST_ACK => "LAST_ACK",
        MIB_TCP_STATE_TIME_WAIT => "TIME_WAIT",
        _ => "?",
    }
}

/// The byte of weight `256^i` in `ip`: as the tables hold an address, the `i`th of
/// its dotted notation.
pub open spec fn ip_byte(ip: u32, i: int) -> nat {
    if i == 0 {
        (ip % 256) as nat
    } else if i == 1 {
        (ip / 256 % 256) as nat
    } else if i == 2 {
        (ip / 65536 % 256) as nat
    } else {
        (ip / 16777216) as nat
    }
}

/// The dotted notation of `ip`.
pub open spec fn dotted(ip: u32) -> Seq<char> {
    text::decimal(ip_byte(ip, 0)) + "."@ + text::decimal(ip_byte(ip, 1)) + "."@ + text::decimal(
        ip_byte(ip, 2),
    ) + "."@ + text::decimal(ip_byte(ip, 3))
}

/// The dotted notation of an IPv4 address in network byte order.
pub fn ipv4_to_string(ip_be: u32) -> (s: String)
    ensures
        s@ == dotted(ip_be),
{
    let mut s = decimal_string((ip_be % 256) as u64);
    s.append(".");
    s.append(decimal_string((ip_be / 256 % 256) as u64).as_str());
    s.append(".");
    s.append(decimal_string((ip_be / 65536 % 256) as u64).as_str());
    s.append(".");
    s.append(decimal_string((ip_be / 16777216) as u64).as_str());
    s
}

/// The notation of an IPv6 address, from the buffer in which the system wrote it.
pub fn ipv6_to_string(host: &[u8]) -> (s: String)
    ensures
        s@ == text::utf8_lossy(text::until(host@, 0)),
        utf8::valid_utf8(text::until(host@, 0)) ==> s@ == utf8::decode_utf8(text::until(host@, 0)),
{
    buffer_text(host)
}

/// The port that the tables hold as `w`: its two low bytes, the high one first.
pub open spec fn wire_port(w: u32) -> u16 {
    ((w % 256) * 256 + w / 256 % 256) as u16
}

/// `p` as the tables hold it.
pub open spec fn port_wire(p: u16) -> u32 {
    ((p % 256) * 256 + p / 256) as u32
}

/// Reads a port as the tables hold it.
pub fn port_from_wire(w: u32) -> (p: u16)
    ensures
        p == wire_port(w),
{
    ((w % 256) * 256 + w / 256 % 256) as u16
}

/// Writes a port as the tables hold it.
pub fn port_to_wire(p: u16) -> (w: u32)
    ensures
        w == port_wire(p),
{
    (p as u32 % 256) * 256 + p as u32 / 256
}

/// A port read back from what was written for it is the port, and what is written
/// uses the two low bytes only.
pub proof fn law_port_round_trip(p: u16)
    ensures
        wire_port(port_wire(p)) == p,
        port_wire(p) < 0x10000,
{
}

proof fn lemma_digits_only(n: nat, c: char)
    requires
        c < '0' || c > '9',
    ensures
        !text::decimal(n).contains(c),
{
    text::law_decimal_digits(n);
}

/// Dotted notation holds digits and dots only.
pub proof fn law_dotted_characters(ip: u32)
    ensures
        forall|i: int|
            0 <= i < dotted(ip).len() ==> '0' <= #[trigger] dotted(ip)[i] <= '9' || dotted(ip)[i]
                == '.',
{
    reveal_strlit(".");
    text::law_decimal_digits(ip_byte(ip, 0));
    text::law_decimal_digits(ip_byte(ip, 1));
    text::law_decimal_digits(ip_byte(ip, 2));
    text::law_decimal_digits(ip_byte(ip, 3));
}

/// Two addresses with one dotted notation are one address.
pub proof fn law_dotted_injective(a: u32, b: u32)
    requires
        dotted(a) == dotted(b),
    ensures
        a == b,
{
    reveal_strlit(".");
    assert("."@ =~= seq!['.']);
    let (a0, a1) = (text::decimal(ip_byte(a, 0)), text::decimal(ip_byte(a, 1)));
    let (a2, a3) = (text::decimal(ip_byte(a, 2)), text::decimal(ip_byte(a, 3)));
    let (b0, b1) = (text::decimal(ip_byte(b, 0)), text::decimal(ip_byte(b, 1)));
    let (b2, b3) = (text::decimal(ip_byte(b, 2)), text::decimal(ip_byte(b, 3)));
    let dot = seq!['.'];
    lemma_digits_only(ip_byte(a, 0), '.');
    lemma_digits_only(ip_byte(a, 1), '.');
    lemma_digits_only(ip_byte(a, 2), '.');
    lemma_digits_only(ip_byte(b, 0), '.');
    lemma_digits_only(ip_byte(b, 1), '.');
    lemma_digits_only(ip_byte(b, 2), '.');
    assert(dotted(a) =~= a0 + dot + (a1 + dot + (a2 + dot + a3)));
    assert(dotted(b) =~= b0 + dot + (b1 + dot + (b2 + dot + b3)));
    text::lemma_split_first(a0, a1 + dot + (a2 + dot + a3), b0, b1 + dot + (b2 + dot + b3), '.');
    text::lemma_split_first(a1, a2 + dot + a3, b1, b2 + dot + b3, '.');
    text::lemma_split_first(a2, a3, b2, b3, '.');
    text::law_decimal_injective(ip_byte(a, 0), ip_byte(b, 0));
    text::law_decimal_injective(ip_byte(a, 1), ip_byte(b, 1));
    text::law_decimal_injective(ip_byte(a, 2), ip_byte(b, 2));
    text::law_decimal_injective(ip_byte(a, 3), ip_byte(b, 3));
    lemma_bytes(a);
    lemma_bytes(b);
}

proof fn lemma_bytes(ip: u32)
    ensures
        ip == ip_byte(ip, 0) + 256 * ip_byte(ip, 1) + 65536 * ip_byte(ip, 2) + 16777216 * ip_byte(
            ip,
            3,
        ),
{
    let q: u32 = ip / 256;
    let p: u32 = q / 256;
    assert(ip / 65536 == ip / 256 / 256) by (bit_vector);
    assert(ip / 16777216 == ip / 256 / 256 / 256) by (bit_vector);
    assert(ip == 256 * q + ip % 256);
    assert(q == 256 * p + q % 256);
    assert(p == 256 * (p / 256) + p % 256);
    assert(p / 256 < 256);
}

/// The dotted notation writes the four bytes of an address, the one of least weight
/// first.
pub proof fn law_dotted_bytes(b0: u8, b1: u8, b2: u8, b3: u8)
    ensures
        dotted((b0 + 256 * b1 + 65536 * b2 + 16777216 * b3) as u32) == text::decimal(b0 as nat)
            + "."@ + text::decimal(b1 as nat) + "."@ + text::decimal(b2 as nat) + "."@
            + text::decimal(b3 as nat),
{
    let ip = (b0 + 256 * b1 + 65536 * b2 + 16777216 * b3) as u32;
    lemma_bytes(ip);
    assert(ip_byte(ip, 0) == b0);
    assert(ip_byte(ip, 1) == b1);
    assert(ip_byte(ip, 2) == b2);
    assert(ip_byte(ip, 3) == b3);
}

/// A port stands in the tables with its high byte first, whatever stands in the other
/// two bytes.
pub proof fn law_port_bytes(first: u8, second: u8, rest: u16)
    ensures
        wire_port((first + 256 * second + 65536 * rest) as u32) == 256 * first + second,
        port_wire((256 * first + second) as u16) == first + 256 * second,
{
}

/// A port as the tables hold it is read and written back without its unused bytes.
pub proof fn law_wire_round_trip(w: u32)
    ensures
        port_wire(wire_port(w)) == w % 0x10000,
{
}

/// The hints: thirteen ports have one of their own, those that the system hands out
/// by itself share one, and all others have none.
pub proof fn law_service_names(p: u16)
    ensures
        p == 80 ==> service_name(p) == "HTTP"@,
        p == 443 ==> service_name(p) == "HTTPS"@,
        p == 8443 ==> service_name(p) == "HTTPS-alt"@,
        p == 8080 ==> service_name(p) == "HTTP-proxy"@,
        p == 3478 ==> service_name(p) == "STUN/TURN"@,
        p == 3479 ==> service_name(p) == "STUN/TURN-alt"@,
        p == 5222 ==> service_name(p) == "XMPP"@,
        p == 5223 ==> service_name(p) == "XMPP-TLS"@,
        p == 2099 ==> service_name(p) == "Riot-login"@,
        p == 8393 ==> service_name(p) == "Riot-launcher"@,
        p == 9339 ==> service_name(p) == "Riot-patch"@,
        p == 123 ==> service_name(p) == "NTP"@,
        p == 53 ==> service_name(p) == "DNS"@,
        p >= 49152 ==> service_name(p) == "ephemeral"@,
        p < 49152 && p != 80 && p != 443 && p != 8443 && p != 8080 && p != 3478 && p != 3479 && p
            != 5222 && p != 5223 && p != 2099 && p != 8393 && p != 9339 && p != 123 && p != 53
            ==> service_name(p) == Seq::<char>::empty(),
{
    reveal_strlit("");
    assert(""@ =~= Seq::<char>::empty());
}

/// The names of the TCP states, in the order of their numbers from one on; any other
/// number is named `?`.
pub proof fn law_state_names(s: u32)
    ensures
        s == 1 ==> state_name(s) == "CLOSED"@,
        s == 2 ==> state_name(s) == "LISTEN"@,
        s == 3 ==> state_name(s) == "SYN_SENT"@,
        s == 4 ==> state_name(s) == "SYN_RCVD"@,
        s == 5 ==> state_name(s) == "ESTABLISHED"@,
        s == 6 ==> state_name(s) == "FIN_WAIT1"@,
        s == 7 ==> state_name(s) == "FIN_WAIT2"@,
        s == 8 ==> state_name(s) == "CLOSE_WAIT"@,
        s == 9 ==> state_name(s) == "CLOSING"@,
        s == 10 ==> state_name(s) == "LAST_ACK"@,
        s == 11 ==> state_name(s) == "TIME_WAIT"@,
        s == 0 || s > 11 ==> state_name(s) == "?"@,
{
}

/// Only one state is named `SYN_SENT`.
pub proof fn law_syn_sent_by_name(s: u32)
    ensures
        state_name(s) == "SYN_SENT"@ <==> s == 3,
{
    reveal_strlit("CLOSED");
    reveal_strlit("LISTEN");
    reveal_strlit("SYN_SENT");
    reveal_strlit("SYN_RCVD");
    reveal_strlit("ESTABLISHED");
    reveal_strlit("FIN_WAIT1");
    reveal_strlit("FIN_WAIT2");
    reveal_strlit("CLOSE_WAIT");
    reveal_strlit("CLOSING");
    reveal_strlit("LAST_ACK");
    reveal_strlit("TIME_WAIT");
    reveal_strlit("?");
    assert("SYN_RCVD"@[4] == 'R');
    assert("SYN_SENT"@[4] == 'S');
    assert("LAST_ACK"@[0] == 'L');
    assert("SYN_SENT"@[0] == 'S');
}

} // verus!
