//! The system's TCP and UDP tables, from raw bytes to the connections of the
//! watched processes.
//!
//! A table is a little-endian `u32` count followed by that many rows of one size.

use vstd::prelude::*;
use vstd::string::*;
use vstd::utf8;
use crate::connection;
use crate::connection::{ConnectionInfo, ConnectionView};
use crate::dns;
use crate::event;
use crate::net;
use crate::net::{ipv4_to_string, ipv6_to_string, port_from_wire, NO_ERROR};
use crate::process::has_pid;
use crate::seqs;
use crate::text;

verus! {

broadcast use vstd::seq_lib::group_seq_properties;

/// What one reading of a table gave: the status of the call and the buffer.
pub struct TableRead {
    pub status: u32,
    pub buf: Vec<u8>,
}

/// One reading of each of the four tables.
pub struct Tables {
    pub tcp: TableRead,
    pub udp: TableRead,
    pub tcp6: TableRead,
    pub udp6: TableRead,
}

/// A row of the IPv4 TCP table. Addresses and ports stand as the table holds them.
#[derive(Clone, Copy)]
pub struct TcpRow {
    pub state: u32,
    pub local_addr: u32,
    pub local_port: u32,
    pub remote_addr: u32,
    pub remote_port: u32,
    pub pid: u32,
}

/// A row of the IPv4 UDP table.
#[derive(Clone, Copy)]
pub struct UdpRow {
    pub local_addr: u32,
    pub local_port: u32,
    pub pid: u32,
}

/// A row of the IPv6 TCP table. An address is the number that its sixteen bytes
/// write, the first byte having the most weight.
#[derive(Clone, Copy)]
pub struct Tcp6Row {
    pub local_addr: u128,
    pub local_scope: u32,
    pub local_port: u32,
    pub remote_addr: u128,
    pub remote_scope: u32,
    pub remote_port: u32,
    pub state: u32,
    pub pid: u32,
}

/// A row of the IPv6 UDP table.
#[derive(Clone, Copy)]
pub struct Udp6Row {
    pub local_addr: u128,
    pub local_port: u32,
    pub pid: u32,
}

pub const TCP_ROW: usize = 24;

pub const UDP_ROW: usize = 12;

pub const TCP6_ROW: usize = 56;

pub const UDP6_ROW: usize = 28;

/// The little-endian `u32` at offset `o`.
pub open spec fn u32_at(b: Seq<u8>, o: int) -> u32 {
    (b[o] + 256 * b[o + 1] + 65536 * b[o + 2] + 16777216 * b[o + 3]) as u32
}

/// The number that `b` writes with the most significant byte first.
pub open spec fn be_value(b: Seq<u8>) -> nat
    decreases b.len(),
{
    if b.len() == 0 {
        0
    } else {
        256 * be_value(b.drop_last()) + b.last() as nat
    }
}

/// The sixteen bytes at offset `o` as a number.
pub open spec fn u128_at(b: Seq<u8>, o: int) -> u128 {
    be_value(b.subrange(o, o + 16)) as u128
}

impl TableRead {
    /// How many rows of `size` bytes the reading holds: as many as the table counts
    /// and the buffer has room for, none where the call failed.
    pub open spec fn count(self, size: int) -> nat {
        let b = self.buf@;
        if self.status != NO_ERROR || b.len() < 4 {
            0
        } else if u32_at(b, 0) <= (b.len() - 4) / size {
            u32_at(b, 0) as nat
        } else {
            ((b.len() - 4) / size) as nat
        }
    }
}

pub open spec fn tcp_row(b: Seq<u8>, o: int) -> TcpRow {
    TcpRow {
        state: u32_at(b, o),
        local_addr: u32_at(b, o + 4),
        local_port: u32_at(b, o + 8),
        remote_addr: u32_at(b, o + 12),
        remote_port: u32_at(b, o + 16),
        pid: u32_at(b, o + 20),
    }
}

pub open spec fn udp_row(b: Seq<u8>, o: int) -> UdpRow {
    UdpRow { local_addr: u32_at(b, o), local_port: u32_at(b, o + 4), pid: u32_at(b, o + 8) }
}

pub open spec fn tcp6_row(b: Seq<u8>, o: int) -> Tcp6Row {
    Tcp6Row {
        local_addr: u128_at(b, o),
        local_scope: u32_at(b, o + 16),
        local_port: u32_at(b, o + 20),
        remote_addr: u128_at(b, o + 24),
        remote_scope: u32_at(b, o + 40),
        remote_port: u32_at(b, o + 44),
        state: u32_at(b, o + 48),
        pid: u32_at(b, o + 52),
    }
}

/// (Bytes 16 to 19 hold a scope identifier, which nothing here uses.)
pub open spec fn udp6_row(b: Seq<u8>, o: int) -> Udp6Row {
    Udp6Row { local_addr: u128_at(b, o), local_port: u32_at(b, o + 20), pid: u32_at(b, o + 24) }
}

impl Tables {
    pub open spec fn tcp_rows(self) -> Seq<TcpRow> {
        Seq::new(self.tcp.count(TCP_ROW as int), |k: int| tcp_row(self.tcp.buf@, 4 + TCP_ROW * k))
    }

    pub open spec fn udp_rows(self) -> Seq<UdpRow> {
        Seq::new(self.udp.count(UDP_ROW as int), |k: int| udp_row(self.udp.buf@, 4 + UDP_ROW * k))
    }

    pub open spec fn tcp6_rows(self) -> Seq<Tcp6Row> {
        Seq::new(
            self.tcp6.count(TCP6_ROW as int),
            |k: int| tcp6_row(self.tcp6.buf@, 4 + TCP6_ROW * k),
        )
    }

    pub open spec fn udp6_rows(self) -> Seq<Udp6Row> {
        Seq::new(
            self.udp6.count(UDP6_ROW as int),
            |k: int| udp6_row(self.udp6.buf@, 4 + UDP6_ROW * k),
        )
    }
}

/// The rows that belong to the watched processes.
pub struct OwnedRows {
    pub tcp: Vec<TcpRow>,
    pub udp: Vec<UdpRow>,
    pub tcp6: Vec<Tcp6Row>,
    pub udp6: Vec<Udp6Row>,
}

/// The contents of [`OwnedRows`].
#[verifier::ext_equal]
pub ghost struct RowsView {
    pub tcp: Seq<TcpRow>,
    pub udp: Seq<UdpRow>,
    pub tcp6: Seq<Tcp6Row>,
    pub udp6: Seq<Udp6Row>,
}

impl View for OwnedRows {
    type V = RowsView;

    open spec fn view(&self) -> RowsView {
        RowsView { tcp: self.tcp@, udp: self.udp@, tcp6: self.tcp6@, udp6: self.udp6@ }
    }
}

/// The rows of `t` whose owner is among `pids`, in the order of the tables.
pub open spec fn owned(t: Tables, pids: Seq<u32>) -> RowsView {
    RowsView {
        tcp: t.tcp_rows().filter(|r: TcpRow| pids.contains(r.pid)),
        udp: t.udp_rows().filter(|r: UdpRow| pids.contains(r.pid)),
        tcp6: t.tcp6_rows().filter(|r: Tcp6Row| pids.contains(r.pid)),
        udp6: t.udp6_rows().filter(|r: Udp6Row| pids.contains(r.pid)),
    }
}

fn read_u32(b: &Vec<u8>, o: usize) -> (v: u32)
    requires
        o + 4 <= b.len(),
    ensures
        v == u32_at(b@, o as int),
{
    b[o] as u32 + 256 * (b[o + 1] as u32) + 65536 * (b[o + 2] as u32) + 16777216 * (b[o + 3] as u32)
}

spec fn pow256(k: nat) -> nat
    decreases k,
{
    if k == 0 {
        1
    } else {
        256 * pow256((k - 1) as nat)
    }
}

proof fn lemma_pow256_bound(k: nat)
    requires
        k < 16,
    ensures
        256 * pow256(k) <= 0x1_0000_0000_0000_0000_0000_0000_0000_0000,
{
    reveal_with_fuel(pow256, 17);
}

fn read_u128(b: &Vec<u8>, o: usize) -> (v: u128)
    requires
        o + 16 <= b.len(),
    ensures
        v == u128_at(b@, o as int),
{
    let mut v: u128 = 0;
    let mut i: usize = 0;
    while i < 16
        invariant
            o + 16 <= b.len(),
            i <= 16,
            v == be_value(b@.subrange(o as int, o + i)),
            v < pow256(i as nat),
        decreases 16 - i,
    {
        proof {
            lemma_pow256_bound(i as nat);
            assert(b@.subrange(o as int, o + i + 1).drop_last() =~= b@.subrange(o as int, o + i));
        }
        v = 256 * v + b[o + i] as u128;
        i = i + 1;
    }
    v
}

fn row_count(t: &TableRead, size: usize) -> (n: usize)
    requires
        size == TCP_ROW || size == UDP_ROW || size == TCP6_ROW || size == UDP6_ROW,
    ensures
        n == t.count(size as int),
        n > 0 ==> 4 + n * size <= t.buf@.len(),
{
    if t.status != NO_ERROR || t.buf.len() < 4 {
        return 0;
    }
    let stated: u32 = read_u32(&t.buf, 0);
    let room: usize = (t.buf.len() - 4) / size;
    let n: usize = if stated as u64 <= room as u64 {
        stated as usize
    } else {
        room
    };
    proof {
        assert(n * size <= room * size) by (nonlinear_arith)
            requires
                n <= room,
        ;
        assert(room * size <= t.buf@.len() - 4) by (nonlinear_arith)
            requires
                room == (t.buf@.len() - 4) / size as int,
                size > 0,
        ;
    }
    n
}

fn owned_tcp(t: &Tables, pids: &Vec<u32>) -> (rows: Vec<TcpRow>)
    ensures
        rows@ == owned(*t, pids@).tcp,
{
    let ghost all = t.tcp_rows();
    let ghost p = |r: TcpRow| pids@.contains(r.pid);
    let n: usize = row_count(&t.tcp, TCP_ROW);
    let b = &t.tcp.buf;
    let mut rows: Vec<TcpRow> = Vec::new();
    let mut k: usize = 0;
    proof {
        reveal(Seq::filter);
    }
    while k < n
        invariant
            k <= n,
            n == all.len(),
            n > 0 ==> 4 + n * TCP_ROW <= b.len(),
            all == t.tcp_rows(),
            *b == t.tcp.buf,
            p == (|r: TcpRow| pids@.contains(r.pid)),
            rows@ == all.take(k as int).filter(p),
        decreases n - k,
    {
        let o: usize = 4 + TCP_ROW * k;
        let row = TcpRow {
            state: read_u32(b, o),
            local_addr: read_u32(b, o + 4),
            local_port: read_u32(b, o + 8),
            remote_addr: read_u32(b, o + 12),
            remote_port: read_u32(b, o + 16),
            pid: read_u32(b, o + 20),
        };
        proof {
            seqs::lemma_filter_next(all, k as int, p);
        }
        if has_pid(pids, row.pid) {
            rows.push(row);
        }
        k = k + 1;
    }
    proof {
        assert(all.take(n as int) =~= all);
    }
    rows
}

fn owned_udp(t: &Tables, pids: &Vec<u32>) -> (rows: Vec<UdpRow>)
    ensures
        rows@ == owned(*t, pids@).udp,
{
    let ghost all = t.udp_rows();
    let ghost p = |r: UdpRow| pids@.contains(r.pid);
    let n: usize = row_count(&t.udp, UDP_ROW);
    let b = &t.udp.buf;
    let mut rows: Vec<UdpRow> = Vec::new();
    let mut k: usize = 0;
    proof {
        reveal(Seq::filter);
    }
    while k < n
        invariant
            k <= n,
            n == all.len(),
            n > 0 ==> 4 + n * UDP_ROW <= b.len(),
            all == t.udp_rows(),
            *b == t.udp.buf,
            p == (|r: UdpRow| pids@.contains(r.pid)),
            rows@ == all.take(k as int).filter(p),
        decreases n - k,
    {
        let o: usize = 4 + UDP_ROW * k;
        let row = UdpRow {
            local_addr: read_u32(b, o),
            local_port: read_u32(b, o + 4),
            pid: read_u32(b, o + 8),
        };
        proof {
            seqs::lemma_filter_next(all, k as int, p);
        }
        if has_pid(pids, row.pid) {
            rows.push(row);
        }
        k = k + 1;
    }
    proof {
        assert(all.take(n as int) =~= all);
    }
    rows
}

fn owned_tcp6(t: &Tables, pids: &Vec<u32>) -> (rows: Vec<Tcp6Row>)
    ensures
        rows@ == owned(*t, pids@).tcp6,
{
    let ghost all = t.tcp6_rows();
    let ghost p = |r: Tcp6Row| pids@.contains(r.pid);
    let n: usize = row_count(&t.tcp6, TCP6_ROW);
    let b = &t.tcp6.buf;
    let mut rows: Vec<Tcp6Row> = Vec::new();
    let mut k: usize = 0;
    proof {
        reveal(Seq::filter);
    }
    while k < n
        invariant
            k <= n,
            n == all.len(),
            n > 0 ==> 4 + n * TCP6_ROW <= b.len(),
            all == t.tcp6_rows(),
            *b == t.tcp6.buf,
            p == (|r: Tcp6Row| pids@.contains(r.pid)),
            rows@ == all.take(k as int).filter(p),
        decreases n - k,
    {
        let o: usize = 4 + TCP6_ROW * k;
        let row = Tcp6Row {
            local_addr: read_u128(b, o),
            local_scope: read_u32(b, o + 16),
            local_port: read_u32(b, o + 20),
            remote_addr: read_u128(b, o + 24),
            remote_scope: read_u32(b, o + 40),
            remote_port: read_u32(b, o + 44),
            state: read_u32(b, o + 48),
            pid: read_u32(b, o + 52),
        };
        proof {
            seqs::lemma_filter_next(all, k as int, p);
        }
        if has_pid(pids, row.pid) {
            rows.push(row);
        }
        k = k + 1;
    }
    proof {
        assert(all.take(n as int) =~= all);
    }
    rows
}

fn owned_udp6(t: &Tables, pids: &Vec<u32>) -> (rows: Vec<Udp6Row>)
    ensures
        rows@ == owned(*t, pids@).udp6,
{
    let ghost all = t.udp6_rows();
    let ghost p = |r: Udp6Row| pids@.contains(r.pid);
    let n: usize = row_count(&t.udp6, UDP6_ROW);
    let b = &t.udp6.buf;
    let mut rows: Vec<Udp6Row> = Vec::new();
    let mut k: usize = 0;
    proof {
        reveal(Seq::filter);
    }
    while k < n
        invariant
            k <= n,
            n == all.len(),
            n > 0 ==> 4 + n * UDP6_ROW <= b.len(),
            all == t.udp6_rows(),
            *b == t.udp6.buf,
            p == (|r: Udp6Row| pids@.contains(r.pid)),
            rows@ == all.take(k as int).filter(p),
        decreases n - k,
    {
        let o: usize = 4 + UDP6_ROW * k;
        let row = Udp6Row {
            local_addr: read_u128(b, o),
            local_port: read_u32(b, o + 20),
            pid: read_u32(b, o + 24),
        };
        proof {
            seqs::lemma_filter_next(all, k as int, p);
        }
        if has_pid(pids, row.pid) {
            rows.push(row);
        }
        k = k + 1;
    }
    proof {
        assert(all.take(n as int) =~= all);
    }
    rows
}

/// Picks the rows that belong to the processes `pids` out of the four tables.
pub fn owned_rows(t: &Tables, pids: &Vec<u32>) -> (rows: OwnedRows)
    ensures
        rows@ == owned(*t, pids@),
{
    OwnedRows {
        tcp: owned_tcp(t, pids),
        udp: owned_udp(t, pids),
        tcp6: owned_tcp6(t, pids),
        udp6: owned_udp6(t, pids),
    }
}

/// The IPv6 addresses whose notation the connections of `r` need: local and remote
/// of each TCP row in turn, then the local one of each UDP row.
pub open spec fn addresses(r: RowsView) -> Seq<u128> {
    let n = r.tcp6.len();
    Seq::new(
        2 * n + r.udp6.len(),
        |i: int|
            if i < 2 * n {
                if i % 2 == 0 {
                    r.tcp6[i / 2].local_addr
                } else {
                    r.tcp6[i / 2].remote_addr
                }
            } else {
                r.udp6[i - 2 * n].local_addr
            },
    )
}

/// The IPv6 addresses of `r` in the order in which [`connections`] takes their
/// notations.
pub fn needed_addresses(r: &OwnedRows) -> (a: Vec<u128>)
    ensures
        a@ == addresses(r@),
{
    let mut a: Vec<u128> = Vec::new();
    let mut k: usize = 0;
    while k < r.tcp6.len()
        invariant
            k <= r.tcp6.len(),
            a@ == addresses(r@).take(2 * k),
        decreases r.tcp6.len() - k,
    {
        a.push(r.tcp6[k].local_addr);
        a.push(r.tcp6[k].remote_addr);
        k = k + 1;
        proof {
            assert(a@ =~= addresses(r@).take(2 * k));
        }
    }
    let mut j: usize = 0;
    while j < r.udp6.len()
        invariant
            j <= r.udp6.len(),
            a@ == addresses(r@).take(2 * r.tcp6.len() + j),
        decreases r.udp6.len() - j,
    {
        a.push(r.udp6[j].local_addr);
        j = j + 1;
        proof {
            assert(a@ =~= addresses(r@).take(2 * r.tcp6.len() + j));
        }
    }
    proof {
        assert(a@ =~= addresses(r@));
    }
    a
}

pub open spec fn tcp_connection(r: TcpRow) -> ConnectionView {
    ConnectionView {
        proto: "TCP"@,
        lip: net::dotted(r.local_addr),
        lport: net::wire_port(r.local_port),
        rip: net::dotted(r.remote_addr),
        rport: net::wire_port(r.remote_port),
        state: r.state,
        lip_raw: r.local_addr,
        rip_raw: r.remote_addr,
        lip6_raw: 0,
        rip6_raw: 0,
        lscope: 0,
        rscope: 0,
    }
}

pub open spec fn udp_connection(r: UdpRow) -> ConnectionView {
    ConnectionView {
        proto: "UDP"@,
        lip: net::dotted(r.local_addr),
        lport: net::wire_port(r.local_port),
        rip: "*"@,
        rport: 0,
        state: 0,
        lip_raw: r.local_addr,
        rip_raw: 0,
        lip6_raw: 0,
        rip6_raw: 0,
        lscope: 0,
        rscope: 0,
    }
}

pub open spec fn tcp6_connection(r: Tcp6Row, lip: Seq<char>, rip: Seq<char>) -> ConnectionView {
    ConnectionView {
        proto: "TCP6"@,
        lip,
        lport: net::wire_port(r.local_port),
        rip,
        rport: net::wire_port(r.remote_port),
        state: r.state,
        lip_raw: 0,
        rip_raw: 0,
        lip6_raw: r.local_addr,
        rip6_raw: r.remote_addr,
        lscope: r.local_scope,
        rscope: r.remote_scope,
    }
}

pub open spec fn udp6_connection(r: Udp6Row, lip: Seq<char>) -> ConnectionView {
    ConnectionView {
        proto: "UDP6"@,
        lip,
        lport: net::wire_port(r.local_port),
        rip: "*"@,
        rport: 0,
        state: 0,
        lip_raw: 0,
        rip_raw: 0,
        lip6_raw: 0,
        rip6_raw: 0,
        lscope: 0,
        rscope: 0,
    }
}

/// The notation in the `i`th of the buffers `hosts`, empty where there is none.
pub open spec fn host_at(hosts: Seq<Vec<u8>>, i: int) -> Seq<char> {
    if 0 <= i < hosts.len() {
        text::utf8_lossy(text::until(hosts[i]@, 0))
    } else {
        Seq::empty()
    }
}

/// The connections of `r`, table by table.
pub open spec fn connection_views(r: RowsView, hosts: Seq<Vec<u8>>) -> Seq<ConnectionView> {
    let n = r.tcp6.len();
    r.tcp.map_values(|r: TcpRow| tcp_connection(r)) + r.udp.map_values(
        |r: UdpRow| udp_connection(r),
    ) + Seq::new(
        n,
        |k: int| tcp6_connection(r.tcp6[k], host_at(hosts, 2 * k), host_at(hosts, 2 * k + 1)),
    ) + Seq::new(r.udp6.len(), |k: int| udp6_connection(r.udp6[k], host_at(hosts, 2 * n + k)))
}

/// The contents of a list of connections.
pub open spec fn views(s: Seq<ConnectionInfo>) -> Seq<ConnectionView> {
    s.map_values(|c: ConnectionInfo| c@)
}

/// Whether the notation in the `i`th of the buffers `hosts`, where it is well-formed
/// UTF-8, reads as it stands.
pub open spec fn host_decodes(hosts: Seq<Vec<u8>>, i: int) -> bool {
    0 <= i < hosts.len() && utf8::valid_utf8(text::until(hosts[i]@, 0)) ==> host_at(hosts, i)
        == utf8::decode_utf8(text::until(hosts[i]@, 0))
}

fn host_string(hosts: &Vec<Vec<u8>>, i: u128) -> (s: String)
    ensures
        s@ == host_at(hosts@, i as int),
        host_decodes(hosts@, i as int),
{
    if i < hosts.len() as u128 {
        ipv6_to_string(hosts[i as usize].as_slice())
    } else {
        String::new()
    }
}

proof fn lemma_views_push(s: Seq<ConnectionInfo>, c: ConnectionInfo)
    ensures
        views(s.push(c)) == views(s).push(c@),
{
    assert(views(s.push(c)) =~= views(s).push(c@));
}

fn push_tcp(out: &mut Vec<ConnectionInfo>, rows: &Vec<TcpRow>)
    ensures
        views(final(out)@) == views(old(out)@) + rows@.map_values(|r: TcpRow| tcp_connection(r)),
{
    let ghost all = rows@.map_values(|r: TcpRow| tcp_connection(r));
    let mut k: usize = 0;
    proof {
        assert(views(out@) =~= views(old(out)@) + all.take(0));
    }
    while k < rows.len()
        invariant
            k <= rows.len(),
            all == rows@.map_values(|r: TcpRow| tcp_connection(r)),
            views(out@) == views(old(out)@) + all.take(k as int),
        decreases rows.len() - k,
    {
        let r = rows[k];
        let c = ConnectionInfo {
            proto: "TCP".to_owned(),
            lip: ipv4_to_string(r.local_addr),
            lport: port_from_wire(r.local_port),
            rip: ipv4_to_string(r.remote_addr),
            rport: port_from_wire(r.remote_port),
            state: r.state,
            lip_raw: r.local_addr,
            rip_raw: r.remote_addr,
            lip6_raw: 0,
            rip6_raw: 0,
            lscope: 0,
            rscope: 0,
        };
        proof {
            lemma_views_push(out@, c);
            assert(all.take(k + 1) =~= all.take(k as int).push(all[k as int]));
        }
        out.push(c);
        k = k + 1;
        proof {
            assert(views(out@) =~= views(old(out)@) + all.take(k as int));
        }
    }
    proof {
        assert(all.take(k as int) =~= all);
    }
}

fn push_udp(out: &mut Vec<ConnectionInfo>, rows: &Vec<UdpRow>)
    ensures
        views(final(out)@) == views(old(out)@) + rows@.map_values(|r: UdpRow| udp_connection(r)),
{
    let ghost all = rows@.map_values(|r: UdpRow| udp_connection(r));
    let mut k: usize = 0;
    proof {
        assert(views(out@) =~= views(old(out)@) + all.take(0));
    }
    while k < rows.len()
        invariant
            k <= rows.len(),
            all == rows@.map_values(|r: UdpRow| udp_connection(r)),
            views(out@) == views(old(out)@) + all.take(k as int),
        decreases rows.len() - k,
    {
        let r = rows[k];
        let c = ConnectionInfo {
            proto: "UDP".to_owned(),
            lip: ipv4_to_string(r.local_addr),
            lport: port_from_wire(r.local_port),
            rip: "*".to_owned(),
            rport: 0,
            state: 0,
            lip_raw: r.local_addr,
            rip_raw: 0,
            lip6_raw: 0,
            rip6_raw: 0,
            lscope: 0,
            rscope: 0,
        };
        proof {
            lemma_views_push(out@, c);
            assert(all.take(k + 1) =~= all.take(k as int).push(all[k as int]));
        }
        out.push(c);
        k = k + 1;
        proof {
            assert(views(out@) =~= views(old(out)@) + all.take(k as int));
        }
    }
    proof {
        assert(all.take(k as int) =~= all);
    }
}

fn push_tcp6(out: &mut Vec<ConnectionInfo>, rows: &Vec<Tcp6Row>, hosts: &Vec<Vec<u8>>)
    ensures
        views(final(out)@) == views(old(out)@) + Seq::new(
            rows@.len(),
            |k: int|
                tcp6_connection(rows@[k], host_at(hosts@, 2 * k), host_at(hosts@, 2 * k + 1)),
        ),
        forall|i: int| 0 <= i < 2 * rows@.len() ==> #[trigger] host_decodes(hosts@, i),
{
    let ghost all = Seq::new(
        rows@.len(),
        |k: int| tcp6_connection(rows@[k], host_at(hosts@, 2 * k), host_at(hosts@, 2 * k + 1)),
    );
    let mut k: usize = 0;
    proof {
        assert(views(out@) =~= views(old(out)@) + all.take(0));
    }
    while k < rows.len()
        invariant
            k <= rows.len(),
            all == Seq::new(
                rows@.len(),
                |k: int|
                    tcp6_connection(rows@[k], host_at(hosts@, 2 * k), host_at(hosts@, 2 * k + 1)),
            ),
            forall|i: int| 0 <= i < 2 * k ==> #[trigger] host_decodes(hosts@, i),
            views(out@) == views(old(out)@) + all.take(k as int),
        decreases rows.len() - k,
    {
        let r = rows[k];
        let c = ConnectionInfo {
            proto: "TCP6".to_owned(),
            lip: host_string(hosts, 2 * (k as u128)),
            lport: port_from_wire(r.local_port),
            rip: host_string(hosts, 2 * (k as u128) + 1),
            rport: port_from_wire(r.remote_port),
            state: r.state,
            lip_raw: 0,
            rip_raw: 0,
            lip6_raw: r.local_addr,
            rip6_raw: r.remote_addr,
            lscope: r.local_scope,
            rscope: r.remote_scope,
        };
        proof {
            lemma_views_push(out@, c);
            assert(all.take(k + 1) =~= all.take(k as int).push(all[k as int]));
        }
        out.push(c);
        k = k + 1;
        proof {
            assert(views(out@) =~= views(old(out)@) + all.take(k as int));
        }
    }
    proof {
        assert(all.take(k as int) =~= all);
    }
}

fn push_udp6(out: &mut Vec<ConnectionInfo>, rows: &Vec<Udp6Row>, hosts: &Vec<Vec<u8>>, skip: usize)
    ensures
        views(final(out)@) == views(old(out)@) + Seq::new(
            rows@.len(),
            |k: int| udp6_connection(rows@[k], host_at(hosts@, 2 * skip + k)),
        ),
        forall|i: int|
            2 * skip <= i < 2 * skip + rows@.len() ==> #[trigger] host_decodes(hosts@, i),
{
    let ghost all = Seq::new(
        rows@.len(),
        |k: int| udp6_connection(rows@[k], host_at(hosts@, 2 * skip + k)),
    );
    let mut k: usize = 0;
    proof {
        assert(views(out@) =~= views(old(out)@) + all.take(0));
    }
    while k < rows.len()
        invariant
            k <= rows.len(),
            all == Seq::new(
                rows@.len(),
                |k: int| udp6_connection(rows@[k], host_at(hosts@, 2 * skip + k)),
            ),
            forall|i: int| 2 * skip <= i < 2 * skip + k ==> #[trigger] host_decodes(hosts@, i),
            views(out@) == views(old(out)@) + all.take(k as int),
        decreases rows.len() - k,
    {
        let r = rows[k];
        let c = ConnectionInfo {
            proto: "UDP6".to_owned(),
            lip: host_string(hosts, 2 * (skip as u128) + k as u128),
            lport: port_from_wire(r.local_port),
            rip: "*".to_owned(),
            rport: 0,
            state: 0,
            lip_raw: 0,
            rip_raw: 0,
            lip6_raw: 0,
            rip6_raw: 0,
            lscope: 0,
            rscope: 0,
        };
        proof {
            lemma_views_push(out@, c);
            assert(all.take(k + 1) =~= all.take(k as int).push(all[k as int]));
        }
        out.push(c);
        k = k + 1;
        proof {
            assert(views(out@) =~= views(old(out)@) + all.take(k as int));
        }
    }
    proof {
        assert(all.take(k as int) =~= all);
    }
}

/// The connections that the rows `r` describe, table by table. `hosts` holds a
/// buffer with the notation of each of [`needed_addresses`].
pub fn connections(r: &OwnedRows, hosts: &Vec<Vec<u8>>) -> (conns: Vec<ConnectionInfo>)
    ensures
        views(conns@) == connection_views(r@, hosts@),
        forall|i: int| 0 <= i < addresses(r@).len() ==> #[trigger] host_decodes(hosts@, i),
{
    let mut out: Vec<ConnectionInfo> = Vec::new();
    proof {
        assert(views(out@) =~= Seq::empty());
    }
    push_tcp(&mut out, &r.tcp);
    push_udp(&mut out, &r.udp);
    push_tcp6(&mut out, &r.tcp6, hosts);
    push_udp6(&mut out, &r.udp6, hosts, r.tcp6.len());
    proof {
        assert(views(out@) =~= connection_views(r@, hosts@));
    }
    out
}

/// The connections of the processes `pids` in the four tables.
pub fn enumerate_connections(pids: &Vec<u32>, t: &Tables, hosts: &Vec<Vec<u8>>) -> (conns: Vec<
    ConnectionInfo,
>)
    ensures
        views(conns@) == connection_views(owned(*t, pids@), hosts@),
        forall|i: int|
            0 <= i < addresses(owned(*t, pids@)).len() ==> #[trigger] host_decodes(hosts@, i),
{
    connections(&owned_rows(t, pids), hosts)
}

/// The key of an IPv4 TCP row identifies its addresses and ports.
pub proof fn law_tcp_key_identifies(a: TcpRow, b: TcpRow)
    requires
        tcp_connection(a).key() == tcp_connection(b).key(),
    ensures
        a.local_addr == b.local_addr,
        net::wire_port(a.local_port) == net::wire_port(b.local_port),
        a.remote_addr == b.remote_addr,
        net::wire_port(a.remote_port) == net::wire_port(b.remote_port),
{
    reveal_strlit("TCP");
    net::law_dotted_characters(a.local_addr);
    net::law_dotted_characters(b.local_addr);
    connection::law_key_injective(tcp_connection(a), tcp_connection(b));
    net::law_dotted_injective(a.local_addr, b.local_addr);
    net::law_dotted_injective(a.remote_addr, b.remote_addr);
}

/// The key of an IPv4 UDP row identifies its address and port.
pub proof fn law_udp_key_identifies(a: UdpRow, b: UdpRow)
    requires
        udp_connection(a).key() == udp_connection(b).key(),
    ensures
        a.local_addr == b.local_addr,
        net::wire_port(a.local_port) == net::wire_port(b.local_port),
{
    reveal_strlit("UDP");
    net::law_dotted_characters(a.local_addr);
    net::law_dotted_characters(b.local_addr);
    connection::law_key_injective(udp_connection(a), udp_connection(b));
    net::law_dotted_injective(a.local_addr, b.local_addr);
}

/// Every listed connection belongs to a watched process: it stands in a row whose
/// owner is among `pids`, and every such row is listed.
pub proof fn law_only_watched_rows(t: Tables, pids: Seq<u32>)
    ensures
        forall|r: TcpRow| #[trigger]
            owned(t, pids).tcp.contains(r) <==> t.tcp_rows().contains(r) && pids.contains(r.pid),
        forall|r: UdpRow| #[trigger]
            owned(t, pids).udp.contains(r) <==> t.udp_rows().contains(r) && pids.contains(r.pid),
        forall|r: Tcp6Row| #[trigger]
            owned(t, pids).tcp6.contains(r) <==> t.tcp6_rows().contains(r) && pids.contains(r.pid),
        forall|r: Udp6Row| #[trigger]
            owned(t, pids).udp6.contains(r) <==> t.udp6_rows().contains(r) && pids.contains(r.pid),
{
    seqs::lemma_filter_contains(t.tcp_rows(), |r: TcpRow| pids.contains(r.pid));
    seqs::lemma_filter_contains(t.udp_rows(), |r: UdpRow| pids.contains(r.pid));
    seqs::lemma_filter_contains(t.tcp6_rows(), |r: Tcp6Row| pids.contains(r.pid));
    seqs::lemma_filter_contains(t.udp6_rows(), |r: Udp6Row| pids.contains(r.pid));
}

/// Whether `hosts` hold, for each of the addresses of `r`, the text that `f` gives it.
pub open spec fn written_by(r: RowsView, hosts: Seq<Vec<u8>>, f: spec_fn(u128) -> Seq<char>) -> bool {
    forall|i: int|
        0 <= i < addresses(r).len() ==> #[trigger] host_at(hosts, i) == f(addresses(r)[i])
}

/// Where equal addresses have equal texts, a connection depends on its row alone.
proof fn lemma_row_by_row(r: RowsView, hosts: Seq<Vec<u8>>, f: spec_fn(u128) -> Seq<char>)
    requires
        written_by(r, hosts, f),
    ensures
        connection_views(r, hosts) == r.tcp.map_values(|r: TcpRow| tcp_connection(r))
            + r.udp.map_values(|r: UdpRow| udp_connection(r)) + r.tcp6.map_values(
            |r: Tcp6Row| tcp6_connection(r, f(r.local_addr), f(r.remote_addr)),
        ) + r.udp6.map_values(|r: Udp6Row| udp6_connection(r, f(r.local_addr))),
{
    let n = r.tcp6.len();
    let x = Seq::new(
        n,
        |k: int| tcp6_connection(r.tcp6[k], host_at(hosts, 2 * k), host_at(hosts, 2 * k + 1)),
    );
    let y = r.tcp6.map_values(
        |r: Tcp6Row| tcp6_connection(r, f(r.local_addr), f(r.remote_addr)),
    );
    assert forall|k: int| 0 <= k < n implies x[k] == y[k] by {
        assert(host_at(hosts, 2 * k) == f(addresses(r)[2 * k]));
        assert(host_at(hosts, 2 * k + 1) == f(addresses(r)[2 * k + 1]));
    }
    assert(x =~= y);
    let v = Seq::new(r.udp6.len(), |k: int| udp6_connection(r.udp6[k], host_at(hosts, 2 * n + k)));
    let w = r.udp6.map_values(|r: Udp6Row| udp6_connection(r, f(r.local_addr)));
    assert forall|k: int| 0 <= k < r.udp6.len() implies v[k] == w[k] by {
        assert(host_at(hosts, 2 * n + k) == f(addresses(r)[2 * n + k]));
    }
    assert(v =~= w);
}

proof fn lemma_picks_four<T>(
    a: (Seq<T>, Seq<T>, Seq<T>, Seq<T>),
    b: (Seq<T>, Seq<T>, Seq<T>, Seq<T>),
)
    requires
        seqs::is_subsequence(a.0, b.0),
        seqs::is_subsequence(a.1, b.1),
        seqs::is_subsequence(a.2, b.2),
        seqs::is_subsequence(a.3, b.3),
    ensures
        seqs::is_subsequence(a.0 + a.1 + a.2 + a.3, b.0 + b.1 + b.2 + b.3),
{
    seqs::lemma_subsequence_add(a.0, b.0, a.1, b.1);
    seqs::lemma_subsequence_add(a.0 + a.1, b.0 + b.1, a.2, b.2);
    seqs::lemma_subsequence_add(a.0 + a.1 + a.2, b.0 + b.1 + b.2, a.3, b.3);
}

proof fn lemma_owned_picks(
    t: Tables,
    a: Seq<u32>,
    u: Seq<u32>,
    ha: Seq<Vec<u8>>,
    hu: Seq<Vec<u8>>,
    f: spec_fn(u128) -> Seq<char>,
)
    requires
        forall|p: u32| #[trigger] a.contains(p) ==> u.contains(p),
        written_by(owned(t, a), ha, f),
        written_by(owned(t, u), hu, f),
    ensures
        seqs::is_subsequence(
            connection_views(owned(t, a), ha),
            connection_views(owned(t, u), hu),
        ),
{
    let (ra, ru) = (owned(t, a), owned(t, u));
    let f1 = |r: TcpRow| tcp_connection(r);
    let f2 = |r: UdpRow| udp_connection(r);
    let f3 = |r: Tcp6Row| tcp6_connection(r, f(r.local_addr), f(r.remote_addr));
    let f4 = |r: Udp6Row| udp6_connection(r, f(r.local_addr));
    lemma_row_by_row(ra, ha, f);
    lemma_row_by_row(ru, hu, f);
    seqs::lemma_filter_picks(
        t.tcp_rows(),
        |r: TcpRow| a.contains(r.pid),
        |r: TcpRow| u.contains(r.pid),
        f1,
    );
    seqs::lemma_filter_picks(
        t.udp_rows(),
        |r: UdpRow| a.contains(r.pid),
        |r: UdpRow| u.contains(r.pid),
        f2,
    );
    seqs::lemma_filter_picks(
        t.tcp6_rows(),
        |r: Tcp6Row| a.contains(r.pid),
        |r: Tcp6Row| u.contains(r.pid),
        f3,
    );
    seqs::lemma_filter_picks(
        t.udp6_rows(),
        |r: Udp6Row| a.contains(r.pid),
        |r: Udp6Row| u.contains(r.pid),
        f4,
    );
    lemma_picks_four(
        (
            ra.tcp.map_values(f1),
            ra.udp.map_values(f2),
            ra.tcp6.map_values(f3),
            ra.udp6.map_values(f4),
        ),
        (
            ru.tcp.map_values(f1),
            ru.udp.map_values(f2),
            ru.tcp6.map_values(f3),
            ru.udp6.map_values(f4),
        ),
    );
}

proof fn lemma_multiset_four<T>(a: Seq<T>, b: Seq<T>, c: Seq<T>, d: Seq<T>)
    ensures
        (a + b + c + d).to_multiset() == a.to_multiset().add(b.to_multiset()).add(
            c.to_multiset(),
        ).add(d.to_multiset()),
{
    vstd::seq_lib::lemma_multiset_commutative(a, b);
    vstd::seq_lib::lemma_multiset_commutative(a + b, c);
    vstd::seq_lib::lemma_multiset_commutative(a + b + c, d);
}

/// The connections of two sets of processes together are those of the one and those
/// of the other, merged in order: nothing is lost, added or moved. (`a` and `b` have
/// no process in common, `u` are those of both, and equal addresses have equal
/// texts.)
pub proof fn law_disjoint_owners_merge(
    t: Tables,
    a: Seq<u32>,
    b: Seq<u32>,
    u: Seq<u32>,
    ha: Seq<Vec<u8>>,
    hb: Seq<Vec<u8>>,
    hu: Seq<Vec<u8>>,
    f: spec_fn(u128) -> Seq<char>,
)
    requires
        forall|p: u32| !(#[trigger] a.contains(p) && b.contains(p)),
        forall|p: u32| #[trigger] u.contains(p) <==> a.contains(p) || b.contains(p),
        written_by(owned(t, a), ha, f),
        written_by(owned(t, b), hb, f),
        written_by(owned(t, u), hu, f),
    ensures
        connection_views(owned(t, u), hu).to_multiset() == connection_views(
            owned(t, a),
            ha,
        ).to_multiset().add(connection_views(owned(t, b), hb).to_multiset()),
        seqs::is_subsequence(
            connection_views(owned(t, a), ha),
            connection_views(owned(t, u), hu),
        ),
        seqs::is_subsequence(
            connection_views(owned(t, b), hb),
            connection_views(owned(t, u), hu),
        ),
{
    let (ra, rb, ru) = (owned(t, a), owned(t, b), owned(t, u));
    let f1 = |r: TcpRow| tcp_connection(r);
    let f2 = |r: UdpRow| udp_connection(r);
    let f3 = |r: Tcp6Row| tcp6_connection(r, f(r.local_addr), f(r.remote_addr));
    let f4 = |r: Udp6Row| udp6_connection(r, f(r.local_addr));
    assert forall|p: u32| #[trigger] a.contains(p) implies u.contains(p) by {}
    assert forall|p: u32| #[trigger] b.contains(p) implies u.contains(p) by {}
    lemma_owned_picks(t, a, u, ha, hu, f);
    lemma_owned_picks(t, b, u, hb, hu, f);
    lemma_row_by_row(ra, ha, f);
    lemma_row_by_row(rb, hb, f);
    lemma_row_by_row(ru, hu, f);
    seqs::lemma_filter_either(
        t.tcp_rows(),
        |r: TcpRow| a.contains(r.pid),
        |r: TcpRow| b.contains(r.pid),
        |r: TcpRow| u.contains(r.pid),
        f1,
    );
    seqs::lemma_filter_either(
        t.udp_rows(),
        |r: UdpRow| a.contains(r.pid),
        |r: UdpRow| b.contains(r.pid),
        |r: UdpRow| u.contains(r.pid),
        f2,
    );
    seqs::lemma_filter_either(
        t.tcp6_rows(),
        |r: Tcp6Row| a.contains(r.pid),
        |r: Tcp6Row| b.contains(r.pid),
        |r: Tcp6Row| u.contains(r.pid),
        f3,
    );
    seqs::lemma_filter_either(
        t.udp6_rows(),
        |r: Udp6Row| a.contains(r.pid),
        |r: Udp6Row| b.contains(r.pid),
        |r: Udp6Row| u.contains(r.pid),
        f4,
    );
    lemma_multiset_four(
        ra.tcp.map_values(f1),
        ra.udp.map_values(f2),
        ra.tcp6.map_values(f3),
        ra.udp6.map_values(f4),
    );
    lemma_multiset_four(
        rb.tcp.map_values(f1),
        rb.udp.map_values(f2),
        rb.tcp6.map_values(f3),
        rb.udp6.map_values(f4),
    );
    lemma_multiset_four(
        ru.tcp.map_values(f1),
        ru.udp.map_values(f2),
        ru.tcp6.map_values(f3),
        ru.udp6.map_values(f4),
    );
    assert(connection_views(ru, hu).to_multiset() =~= connection_views(ra, ha).to_multiset().add(
        connection_views(rb, hb).to_multiset(),
    ));
}

/// The query for the totals of an IPv4 TCP connection carries the addresses and ports
/// of the row that describes it.
pub proof fn law_query_of_row(r: TcpRow)
    ensures
        event::totals_query(tcp_connection(r)) is V4,
        event::totals_query(tcp_connection(r))->V4_0.state == 5,
        event::totals_query(tcp_connection(r))->V4_0.local_addr == r.local_addr,
        event::totals_query(tcp_connection(r))->V4_0.local_port == r.local_port % 0x10000,
        event::totals_query(tcp_connection(r))->V4_0.remote_addr == r.remote_addr,
        event::totals_query(tcp_connection(r))->V4_0.remote_port == r.remote_port % 0x10000,
{
    reveal_strlit("TCP");
    reveal_strlit("TCP6");
    assert("TCP"@.len() != "TCP6"@.len());
    net::law_wire_round_trip(r.local_port);
    net::law_wire_round_trip(r.remote_port);
}

/// The query for the totals of an IPv6 TCP connection carries the addresses, scopes
/// and ports of the row that describes it, whatever texts its addresses have.
pub proof fn law_query_of_row6(r: Tcp6Row, lip: Seq<char>, rip: Seq<char>)
    ensures
        event::totals_query(tcp6_connection(r, lip, rip)) is V6,
        event::totals_query(tcp6_connection(r, lip, rip))->V6_0.state == 5,
        event::totals_query(tcp6_connection(r, lip, rip))->V6_0.local_addr == r.local_addr,
        event::totals_query(tcp6_connection(r, lip, rip))->V6_0.local_scope == r.local_scope,
        event::totals_query(tcp6_connection(r, lip, rip))->V6_0.local_port == r.local_port
            % 0x10000,
        event::totals_query(tcp6_connection(r, lip, rip))->V6_0.remote_addr == r.remote_addr,
        event::totals_query(tcp6_connection(r, lip, rip))->V6_0.remote_scope == r.remote_scope,
        event::totals_query(tcp6_connection(r, lip, rip))->V6_0.remote_port == r.remote_port
            % 0x10000,
{
    net::law_wire_round_trip(r.local_port);
    net::law_wire_round_trip(r.remote_port);
}

/// The address `127.0.0.1` as the tables hold it.
pub const LOOPBACK: u32 = 0x0100_007f;

proof fn lemma_loopback(ip: u32)
    ensures
        net::dotted(ip) == "127.0.0.1"@ <==> ip == LOOPBACK,
{
    net::law_dotted_bytes(127, 0, 0, 1);
    reveal_strlit("127.0.0.1");
    reveal_strlit(".");
    reveal_with_fuel(text::decimal, 4);
    assert(net::dotted(LOOPBACK) =~= "127.0.0.1"@);
    if net::dotted(ip) == "127.0.0.1"@ {
        net::law_dotted_injective(ip, LOOPBACK);
    }
}

/// Totals are asked for exactly for TCP to another machine: not for a socket that
/// only listens, not for the machine itself, and not for UDP.
pub proof fn law_totals_by_row(
    r: TcpRow,
    s: Tcp6Row,
    u: UdpRow,
    v: Udp6Row,
    lip: Seq<char>,
    rip: Seq<char>,
)
    ensures
        event::has_totals(tcp_connection(r)) <==> r.remote_addr != 0 && r.remote_addr != LOOPBACK,
        event::has_totals(tcp6_connection(s, lip, rip)) <==> s.remote_addr != 0 && s.remote_addr
            != 1,
        !event::has_totals(udp_connection(u)),
        !event::has_totals(udp6_connection(v, lip)),
{
    reveal_strlit("TCP");
    reveal_strlit("TCP6");
    reveal_strlit("UDP");
    reveal_strlit("UDP6");
    assert("TCP"@[0] == 'T');
    assert("UDP"@[0] == 'U');
    assert("TCP6"@[0] == 'T');
    assert("UDP6"@[0] == 'U');
    lemma_loopback(r.remote_addr);
}

/// The rows of the watched processes are all of theirs, as often as they stand in the
/// tables, in the order of the tables, and no others.
pub proof fn law_owned_exactly(t: Tables, pids: Seq<u32>)
    ensures
        seqs::is_subsequence(owned(t, pids).tcp, t.tcp_rows()),
        seqs::is_subsequence(owned(t, pids).udp, t.udp_rows()),
        seqs::is_subsequence(owned(t, pids).tcp6, t.tcp6_rows()),
        seqs::is_subsequence(owned(t, pids).udp6, t.udp6_rows()),
        forall|r: TcpRow| #[trigger]
            owned(t, pids).tcp.to_multiset().count(r) == if pids.contains(r.pid) {
                t.tcp_rows().to_multiset().count(r)
            } else {
                0
            },
        forall|r: UdpRow| #[trigger]
            owned(t, pids).udp.to_multiset().count(r) == if pids.contains(r.pid) {
                t.udp_rows().to_multiset().count(r)
            } else {
                0
            },
        forall|r: Tcp6Row| #[trigger]
            owned(t, pids).tcp6.to_multiset().count(r) == if pids.contains(r.pid) {
                t.tcp6_rows().to_multiset().count(r)
            } else {
                0
            },
        forall|r: Udp6Row| #[trigger]
            owned(t, pids).udp6.to_multiset().count(r) == if pids.contains(r.pid) {
                t.udp6_rows().to_multiset().count(r)
            } else {
                0
            },
{
    seqs::lemma_filter_counts(t.tcp_rows(), |r: TcpRow| pids.contains(r.pid));
    seqs::lemma_filter_counts(t.udp_rows(), |r: UdpRow| pids.contains(r.pid));
    seqs::lemma_filter_counts(t.tcp6_rows(), |r: Tcp6Row| pids.contains(r.pid));
    seqs::lemma_filter_counts(t.udp6_rows(), |r: Udp6Row| pids.contains(r.pid));
}

/// Each row gives one connection, table by table in the order of the rows, with the
/// addresses, the ports and the state of the row; UDP has neither a remote end nor a
/// state. The text of an IPv6 address is the one that was written down for it.
pub proof fn law_connections_of_rows(
    r: RowsView,
    hosts: Seq<Vec<u8>>,
    f: spec_fn(u128) -> Seq<char>,
)
    requires
        written_by(r, hosts, f),
    ensures
        connection_views(r, hosts).len() == r.tcp.len() + r.udp.len() + r.tcp6.len()
            + r.udp6.len(),
        forall|k: int|
            0 <= k < r.tcp.len() ==> #[trigger] connection_views(r, hosts)[k] == (ConnectionView {
                proto: "TCP"@,
                lip: net::dotted(r.tcp[k].local_addr),
                lport: net::wire_port(r.tcp[k].local_port),
                rip: net::dotted(r.tcp[k].remote_addr),
                rport: net::wire_port(r.tcp[k].remote_port),
                state: r.tcp[k].state,
                lip_raw: r.tcp[k].local_addr,
                rip_raw: r.tcp[k].remote_addr,
                lip6_raw: 0,
                rip6_raw: 0,
                lscope: 0,
                rscope: 0,
            }),
        forall|i: int|
            r.tcp.len() <= i < r.tcp.len() + r.udp.len() ==> #[trigger] connection_views(
                r,
                hosts,
            )[i] == (ConnectionView {
                proto: "UDP"@,
                lip: net::dotted(r.udp[i - r.tcp.len()].local_addr),
                lport: net::wire_port(r.udp[i - r.tcp.len()].local_port),
                rip: "*"@,
                rport: 0,
                state: 0,
                lip_raw: r.udp[i - r.tcp.len()].local_addr,
                rip_raw: 0,
                lip6_raw: 0,
                rip6_raw: 0,
                lscope: 0,
                rscope: 0,
            }),
        forall|i: int|
            r.tcp.len() + r.udp.len() <= i < r.tcp.len() + r.udp.len() + r.tcp6.len() ==> ({
                let row = r.tcp6[i - r.tcp.len() - r.udp.len()];
                #[trigger] connection_views(r, hosts)[i] == (ConnectionView {
                    proto: "TCP6"@,
                    lip: f(row.local_addr),
                    lport: net::wire_port(row.local_port),
                    rip: f(row.remote_addr),
                    rport: net::wire_port(row.remote_port),
                    state: row.state,
                    lip_raw: 0,
                    rip_raw: 0,
                    lip6_raw: row.local_addr,
                    rip6_raw: row.remote_addr,
                    lscope: row.local_scope,
                    rscope: row.remote_scope,
                })
            }),
        forall|i: int|
            r.tcp.len() + r.udp.len() + r.tcp6.len() <= i < connection_views(r, hosts).len() ==> ({
                let row = r.udp6[i - r.tcp.len() - r.udp.len() - r.tcp6.len()];
                #[trigger] connection_views(r, hosts)[i] == (ConnectionView {
                    proto: "UDP6"@,
                    lip: f(row.local_addr),
                    lport: net::wire_port(row.local_port),
                    rip: "*"@,
                    rport: 0,
                    state: 0,
                    lip_raw: 0,
                    rip_raw: 0,
                    lip6_raw: 0,
                    rip6_raw: 0,
                    lscope: 0,
                    rscope: 0,
                })
            }),
{
    lemma_row_by_row(r, hosts, f);
}

/// The text of an IPv6 address is what its own buffer holds up to the first NUL.
pub proof fn law_host_at(hosts: Seq<Vec<u8>>, i: int, name: Seq<u8>, rest: Seq<u8>)
    requires
        0 <= i < hosts.len(),
        !name.contains(0),
        hosts[i]@ == name + seq![0u8] + rest || hosts[i]@ == name,
    ensures
        host_at(hosts, i) == text::utf8_lossy(name),
{
    dns::law_host_name(name, rest, 0);
}

} // verus!
