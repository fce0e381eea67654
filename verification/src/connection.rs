//! One connection of the watched process, as a table row describes it.

use vstd::prelude::*;
use vstd::string::*;
use crate::net;
use crate::net::{port_service, tcp_state_name};
use crate::text;
use crate::text::decimal_string;

verus! {

broadcast use vstd::seq_lib::group_seq_properties;

/// What identifies a connection and the state it was last seen in.
pub struct ConnectionInfo {
    /// `TCP`, `UDP`, `TCP6` or `UDP6`.
    pub proto: String,
    /// The local address.
    pub lip: String,
    /// The local port.
    pub lport: u16,
    /// The remote address, `*` where there is none.
    pub rip: String,
    /// The remote port.
    pub rport: u16,
    /// The TCP state.
    pub state: u32,
    /// The local IPv4 address as the tables hold it.
    pub lip_raw: u32,
    /// The remote IPv4 address as the tables hold it.
    pub rip_raw: u32,
    /// The local address of an IPv6 TCP connection as a number.
    pub lip6_raw: u128,
    /// The remote address of an IPv6 TCP connection as a number.
    pub rip6_raw: u128,
    /// The scope of the local address of an IPv6 TCP connection.
    pub lscope: u32,
    /// The scope of the remote address of an IPv6 TCP connection.
    pub rscope: u32,
}

/// The contents of a [`ConnectionInfo`].
pub ghost struct ConnectionView {
    pub proto: Seq<char>,
    pub lip: Seq<char>,
    pub lport: u16,
    pub rip: Seq<char>,
    pub rport: u16,
    pub state: u32,
    pub lip_raw: u32,
    pub rip_raw: u32,
    pub lip6_raw: u128,
    pub rip6_raw: u128,
    pub lscope: u32,
    pub rscope: u32,
}

impl View for ConnectionInfo {
    type V = ConnectionView;

    open spec fn view(&self) -> ConnectionView {
        ConnectionView {
            proto: self.proto@,
            lip: self.lip@,
            lport: self.lport,
            rip: self.rip@,
            rport: self.rport,
            state: self.state,
            lip_raw: self.lip_raw,
            rip_raw: self.rip_raw,
            lip6_raw: self.lip6_raw,
            rip6_raw: self.rip6_raw,
            lscope: self.lscope,
            rscope: self.rscope,
        }
    }
}

impl Clone for ConnectionInfo {
    fn clone(&self) -> (c: Self)
        ensures
            c@ == self@,
    {
        ConnectionInfo {
            proto: self.proto.clone(),
            lip: self.lip.clone(),
            lport: self.lport,
            rip: self.rip.clone(),
            rport: self.rport,
            state: self.state,
            lip_raw: self.lip_raw,
            rip_raw: self.rip_raw,
            lip6_raw: self.lip6_raw,
            rip6_raw: self.rip6_raw,
            lscope: self.lscope,
            rscope: self.rscope,
        }
    }
}

/// An address and a port, with a colon between them.
pub open spec fn endpoint(ip: Seq<char>, port: u16) -> Seq<char> {
    ip + ":"@ + text::decimal(port as nat)
}

impl ConnectionView {
    pub open spec fn local(self) -> Seq<char> {
        endpoint(self.lip, self.lport)
    }

    pub open spec fn remote(self) -> Seq<char> {
        endpoint(self.rip, self.rport)
    }

    /// What tells this connection from others.
    pub open spec fn key(self) -> Seq<char> {
        self.proto + "|"@ + self.local() + "|"@ + self.remote()
    }

    pub open spec fn is_tcp(self) -> bool {
        self.proto == "TCP"@ || self.proto == "TCP6"@
    }

    /// The protocol and the two endpoints.
    pub open spec fn ends(self) -> Seq<char> {
        "["@ + self.proto + "] "@ + self.local() + " -> "@ + self.remote()
    }

    /// The connection as a log line describes it.
    pub open spec fn description(self) -> Seq<char> {
        let service = net::service_name(self.rport);
        self.ends() + (if service.len() > 0 {
            " ("@ + service + ")"@
        } else {
            Seq::empty()
        }) + (if self.is_tcp() {
            " ["@ + net::state_name(self.state) + "]"@
        } else {
            Seq::empty()
        })
    }
}

/// Whether `s` reads `t`.
pub fn text_is(s: &String, t: &str) -> (b: bool)
    ensures
        b == (s@ == t@),
{
    *s == t.to_owned()
}

/// `ip` and `port` with a colon between them.
pub fn endpoint_string(ip: &String, port: u16) -> (s: String)
    ensures
        s@ == endpoint(ip@, port),
{
    let mut s = ip.clone();
    s.append(":");
    s.append(decimal_string(port as u64).as_str());
    s
}

impl ConnectionInfo {
    /// What tells this connection from others.
    pub fn key(&self) -> (k: String)
        ensures
            k@ == self@.key(),
    {
        let mut k = self.proto.clone();
        k.append("|");
        k.append(endpoint_string(&self.lip, self.lport).as_str());
        k.append("|");
        k.append(endpoint_string(&self.rip, self.rport).as_str());
        k
    }
}

/// The protocol and the two endpoints of a connection.
pub fn fmt_ends(c: &ConnectionInfo) -> (s: String)
    ensures
        s@ == c@.ends(),
{
    let mut s = "[".to_owned();
    s.append(c.proto.as_str());
    s.append("] ");
    s.append(endpoint_string(&c.lip, c.lport).as_str());
    s.append(" -> ");
    s.append(endpoint_string(&c.rip, c.rport).as_str());
    s
}

/// The connection as a log line describes it: protocol and endpoints, then the
/// service hint if there is one, then for TCP the state.
pub fn fmt_endpoint(c: &ConnectionInfo) -> (s: String)
    ensures
        s@ == c@.description(),
{
    let mut s = fmt_ends(c);
    let ghost head = s@;
    let service = port_service(c.rport);
    if !service.is_empty() {
        s.append(" (");
        s.append(service);
        s.append(")");
    }
    let ghost middle = s@;
    proof {
        let v = net::service_name(c.rport);
        assert(middle =~= head + (if v.len() > 0 { " ("@ + v + ")"@ } else { Seq::empty() }));
    }
    if text_is(&c.proto, "TCP") || text_is(&c.proto, "TCP6") {
        s.append(" [");
        s.append(tcp_state_name(c.state));
        s.append("]");
    }
    proof {
        assert(s@ =~= middle + (if c@.is_tcp() {
            " ["@ + net::state_name(c.state) + "]"@
        } else {
            Seq::empty()
        }));
    }
    s
}

/// Endpoints written alike are one address and one port.
pub proof fn law_endpoint_injective(ip: Seq<char>, port: u16, jp: Seq<char>, qort: u16)
    requires
        endpoint(ip, port) == endpoint(jp, qort),
    ensures
        ip == jp,
        port == qort,
{
    reveal_strlit(":");
    assert(":"@ =~= seq![':']);
    text::law_decimal_digits(port as nat);
    text::law_decimal_digits(qort as nat);
    text::lemma_split_last(ip, text::decimal(port as nat), jp, text::decimal(qort as nat), ':');
    text::law_decimal_injective(port as nat, qort as nat);
}

/// A key identifies a connection: of two connections with one key, the protocol and
/// both endpoints agree. (The protocol and the local address must not hold the
/// separator; the remote address may hold anything.)
pub proof fn law_key_injective(a: ConnectionView, b: ConnectionView)
    requires
        !a.proto.contains('|'),
        !b.proto.contains('|'),
        !a.lip.contains('|'),
        !b.lip.contains('|'),
        a.key() == b.key(),
    ensures
        a.proto == b.proto,
        a.lip == b.lip,
        a.lport == b.lport,
        a.rip == b.rip,
        a.rport == b.rport,
{
    reveal_strlit("|");
    reveal_strlit(":");
    assert("|"@ =~= seq!['|']);
    let ra = a.local() + "|"@ + a.remote();
    let rb = b.local() + "|"@ + b.remote();
    assert(a.key() =~= a.proto + seq!['|'] + ra);
    assert(b.key() =~= b.proto + seq!['|'] + rb);
    text::lemma_split_first(a.proto, ra, b.proto, rb, '|');
    text::law_decimal_digits(a.lport as nat);
    text::law_decimal_digits(b.lport as nat);
    text::lemma_split_first(a.local(), a.remote(), b.local(), b.remote(), '|');
    law_endpoint_injective(a.lip, a.lport, b.lip, b.lport);
    law_endpoint_injective(a.rip, a.rport, b.rip, b.rport);
}

/// The texts of a connection, letter by letter: its key, its two ends, and how a log
/// line describes it, with a hint only where the port has one and a state only for
/// TCP.
pub proof fn law_connection_texts(c: ConnectionView)
    ensures
        c.local() == c.lip + ":"@ + text::decimal(c.lport as nat),
        c.remote() == c.rip + ":"@ + text::decimal(c.rport as nat),
        c.key() == c.proto + "|"@ + (c.lip + ":"@ + text::decimal(c.lport as nat)) + "|"@ + (c.rip
            + ":"@ + text::decimal(c.rport as nat)),
        c.ends() == "["@ + c.proto + "] "@ + (c.lip + ":"@ + text::decimal(c.lport as nat))
            + " -> "@ + (c.rip + ":"@ + text::decimal(c.rport as nat)),
        ({
            let hint = if net::service_name(c.rport).len() > 0 {
                " ("@ + net::service_name(c.rport) + ")"@
            } else {
                Seq::empty()
            };
            let state = if c.proto == "TCP"@ || c.proto == "TCP6"@ {
                " ["@ + net::state_name(c.state) + "]"@
            } else {
                Seq::empty()
            };
            c.description() == c.ends() + hint + state
        }),
{
}

/// The contents of a connection are its fields.
pub proof fn law_connection_contents(c: ConnectionInfo)
    ensures
        c@.proto == c.proto@,
        c@.lip == c.lip@,
        c@.lport == c.lport,
        c@.rip == c.rip@,
        c@.rport == c.rport,
        c@.state == c.state,
        c@.lip_raw == c.lip_raw,
        c@.rip_raw == c.rip_raw,
        c@.lip6_raw == c.lip6_raw,
        c@.rip6_raw == c.rip6_raw,
        c@.lscope == c.lscope,
        c@.rscope == c.rscope,
{
}

} // verus!
