//! How the system writes a table into a buffer, and that such a table reads back.

use vstd::prelude::*;
use crate::tables;
use crate::tables::{TableRead, Tables, Tcp6Row, TcpRow, Udp6Row, UdpRow};

verus! {

broadcast use vstd::seq_lib::group_seq_properties;

/// `v` in four bytes, the one of least weight first.
pub open spec fn le32(v: u32) -> Seq<u8> {
    seq![
        (v % 256) as u8,
        (v / 256 % 256) as u8,
        (v / 65536 % 256) as u8,
        (v / 16777216 % 256) as u8,
    ]
}

/// `v` in `n` bytes, the one of most weight first.
pub open spec fn be(v: nat, n: nat) -> Seq<u8>
    decreases n,
{
    if n == 0 {
        Seq::empty()
    } else {
        be(v / 256, (n - 1) as nat).push((v % 256) as u8)
    }
}

/// A row of the IPv4 TCP table.
#[verifier::opaque]
pub open spec fn tcp_bytes(r: TcpRow) -> Seq<u8> {
    le32(r.state) + le32(r.local_addr) + le32(r.local_port) + le32(r.remote_addr) + le32(
        r.remote_port,
    ) + le32(r.pid)
}

/// A row of the IPv4 UDP table.
#[verifier::opaque]
pub open spec fn udp_bytes(r: UdpRow) -> Seq<u8> {
    le32(r.local_addr) + le32(r.local_port) + le32(r.pid)
}

/// A row of the IPv6 TCP table.
#[verifier::opaque]
pub open spec fn tcp6_bytes(r: Tcp6Row) -> Seq<u8> {
    be(r.local_addr as nat, 16) + le32(r.local_scope) + le32(r.local_port) + be(
        r.remote_addr as nat,
        16,
    ) + le32(r.remote_scope) + le32(r.remote_port) + le32(r.state) + le32(r.pid)
}

/// A row of the IPv6 UDP table, with the scope of its address.
#[verifier::opaque]
pub open spec fn udp6_bytes(r: Udp6Row, scope: u32) -> Seq<u8> {
    be(r.local_addr as nat, 16) + le32(scope) + le32(r.local_port) + le32(r.pid)
}

/// The rows `rows`, one behind the other.
pub open spec fn rows_bytes(rows: Seq<Seq<u8>>) -> Seq<u8>
    decreases rows.len(),
{
    if rows.len() == 0 {
        Seq::empty()
    } else {
        rows_bytes(rows.drop_last()) + rows.last()
    }
}

/// Whether `b` holds a table of `rows`: their number, then the rows, and then anything.
pub open spec fn holds_table(b: Seq<u8>, rows: Seq<Seq<u8>>) -> bool {
    &&& rows.len() <= u32::MAX
    &&& (le32(rows.len() as u32) + rows_bytes(rows)).is_prefix_of(b)
}

/// How many rows of `size` bytes a reading holds: none where it failed; all that the
/// table counts where the buffer holds so many whole rows; and otherwise as many as
/// it holds.
pub proof fn law_count(t: TableRead, size: int)
    requires
        size > 0,
    ensures
        t.status != 0 ==> t.count(size) == 0,
        t.buf@.len() < 4 ==> t.count(size) == 0,
        t.status == 0 && t.buf@.len() >= 4 ==> ({
            let b = t.buf@;
            let n = b[0] + 256 * b[1] + 65536 * b[2] + 16777216 * b[3];
            &&& b.len() >= 4 + n * size ==> t.count(size) == n
            &&& b.len() < 4 + n * size ==> 4 + t.count(size) * size <= b.len() < 4 + (t.count(size)
                + 1) * size
        }),
{
    let b = t.buf@;
    if t.status == 0 && b.len() >= 4 {
        let n = b[0] + 256 * b[1] + 65536 * b[2] + 16777216 * b[3];
        let room = (b.len() - 4) / size;
        assert(tables::u32_at(b, 0) == n) by {
            assert(0 <= n <= u32::MAX);
        }
        assert(room * size <= b.len() - 4 < (room + 1) * size) by (nonlinear_arith)
            requires
                room == (b.len() - 4) / size,
                size > 0,
                b.len() >= 4,
        ;
        assert(n <= room <==> n * size <= b.len() - 4) by (nonlinear_arith)
            requires
                room * size <= b.len() - 4 < (room + 1) * size,
                size > 0,
        ;
    }
}

/// Four bytes at `o` that write `v` read back as `v`.
proof fn lemma_u32_back(b: Seq<u8>, o: int, v: u32)
    requires
        0 <= o,
        o + 4 <= b.len(),
        b.subrange(o, o + 4) == le32(v),
    ensures
        tables::u32_at(b, o) == v,
{
    let s = b.subrange(o, o + 4);
    assert(s[0] == b[o] && s[1] == b[o + 1] && s[2] == b[o + 2] && s[3] == b[o + 3]);
    let q: u32 = v / 256;
    let p: u32 = q / 256;
    assert(v / 65536 == v / 256 / 256) by (bit_vector);
    assert(v / 16777216 == v / 256 / 256 / 256) by (bit_vector);
    assert(v == 256 * q + v % 256);
    assert(q == 256 * p + q % 256);
    assert(p == 256 * (p / 256) + p % 256);
    assert(p / 256 < 256);
}

spec fn pow256(n: nat) -> nat
    decreases n,
{
    if n == 0 {
        1
    } else {
        256 * pow256((n - 1) as nat)
    }
}

proof fn lemma_be_back(v: nat, n: nat)
    requires
        v < pow256(n),
    ensures
        be(v, n).len() == n,
        tables::be_value(be(v, n)) == v,
    decreases n,
{
    if n > 0 {
        lemma_be_back(v / 256, (n - 1) as nat);
        assert(be(v, n).drop_last() =~= be(v / 256, (n - 1) as nat));
    }
}

/// Sixteen bytes at `o` that write `v` read back as `v`.
proof fn lemma_u128_back(b: Seq<u8>, o: int, v: u128)
    requires
        0 <= o,
        o + 16 <= b.len(),
        b.subrange(o, o + 16) == be(v as nat, 16),
    ensures
        tables::u128_at(b, o) == v,
{
    reveal_with_fuel(pow256, 17);
    lemma_be_back(v as nat, 16);
}

proof fn lemma_be_len(v: u128)
    ensures
        be(v as nat, 16).len() == 16,
{
    reveal_with_fuel(pow256, 17);
    lemma_be_back(v as nat, 16);
}

/// Rows of one size stand at the multiples of that size.
proof fn lemma_rows_at(rows: Seq<Seq<u8>>, size: int, k: int)
    requires
        size > 0,
        forall|i: int| 0 <= i < rows.len() ==> (#[trigger] rows[i]).len() == size,
        0 <= k <= rows.len(),
    ensures
        rows_bytes(rows).len() == rows.len() * size,
        0 <= k * size,
        k < rows.len() ==> k * size + size <= rows_bytes(rows).len() && rows_bytes(rows).subrange(
            k * size,
            k * size + size,
        ) == rows[k],
    decreases rows.len(),
{
    assert(0 <= k * size) by (nonlinear_arith)
        requires
            0 <= k,
            size > 0,
    ;
    if rows.len() > 0 {
        let d = rows.drop_last();
        let n = d.len() as int;
        assert forall|i: int| 0 <= i < d.len() implies (#[trigger] d[i]).len() == size by {
            assert(d[i] == rows[i]);
        }
        let j = if k < n { k } else { n };
        lemma_rows_at(d, size, j);
        assert(rows.last() == rows[rows.len() - 1]);
        assert((n + 1) * size == n * size + size) by (nonlinear_arith);
        let b = rows_bytes(rows);
        if k < n {
            assert(b.subrange(k * size, k * size + size) =~= rows_bytes(d).subrange(
                k * size,
                k * size + size,
            ));
        } else if k == n {
            assert(b.subrange(k * size, k * size + size) =~= rows[k]);
        }
    } else {
        assert(rows.len() * size == 0) by (nonlinear_arith)
            requires
                rows.len() == 0,
        ;
    }
}

/// In a buffer that holds a table, all rows are counted.
proof fn lemma_table(t: TableRead, rows: Seq<Seq<u8>>, size: int)
    requires
        size > 0,
        t.status == 0,
        forall|i: int| 0 <= i < rows.len() ==> (#[trigger] rows[i]).len() == size,
        holds_table(t.buf@, rows),
    ensures
        t.count(size) == rows.len(),
{
    let b = t.buf@;
    let head = le32(rows.len() as u32);
    let body = rows_bytes(rows);
    lemma_rows_at(rows, size, rows.len() as int);
    assert(b.subrange(0, 4) =~= head) by {
        assert forall|i: int| 0 <= i < 4 implies b[i] == head[i] by {
            assert((head + body)[i] == head[i]);
        }
    }
    lemma_u32_back(b, 0, rows.len() as u32);
    law_count(t, size);
    assert(tables::u32_at(b, 0) == b[0] + 256 * b[1] + 65536 * b[2] + 16777216 * b[3]);
}

/// In a buffer that holds a table, each row stands in its place.
proof fn lemma_table_row(t: TableRead, rows: Seq<Seq<u8>>, size: int, k: int)
    requires
        size > 0,
        forall|i: int| 0 <= i < rows.len() ==> (#[trigger] rows[i]).len() == size,
        holds_table(t.buf@, rows),
        0 <= k < rows.len(),
    ensures
        0 <= size * k,
        4 + size * k + size <= t.buf@.len(),
        rows[k] == t.buf@.subrange(4 + size * k, 4 + size * k + size),
{
    let b = t.buf@;
    let head = le32(rows.len() as u32);
    let body = rows_bytes(rows);
    lemma_rows_at(rows, size, k);
    assert(size * k == k * size) by (nonlinear_arith);
    let part = b.subrange(4 + size * k, 4 + size * k + size);
    assert forall|i: int| 0 <= i < size implies part[i] == rows[k][i] by {
        assert(part[i] == (head + body)[4 + size * k + i]);
        assert(body.subrange(k * size, k * size + size)[i] == body[k * size + i]);
    }
    assert(part =~= rows[k]);
}

proof fn lemma_part(b: Seq<u8>, o: int, n: int, r: Seq<u8>, i: int, s: Seq<u8>)
    requires
        0 <= o,
        o + n <= b.len(),
        r == b.subrange(o, o + n),
        0 <= i,
        i + s.len() <= n,
        r.subrange(i, i + s.len()) == s,
    ensures
        b.subrange(o + i, o + i + s.len()) == s,
{
    assert(b.subrange(o + i, o + i + s.len()) =~= r.subrange(i, i + s.len()));
}

proof fn lemma_tcp_len(r: TcpRow)
    ensures
        tcp_bytes(r).len() == 24,
{
    reveal(tcp_bytes);
}

proof fn lemma_tcp_row(b: Seq<u8>, o: int, r: TcpRow)
    requires
        0 <= o,
        o + 24 <= b.len(),
        tcp_bytes(r) == b.subrange(o, o + 24),
    ensures
        tables::tcp_row(b, o) == r,
{
    reveal(tcp_bytes);
    let s = tcp_bytes(r);
    assert(s.subrange(0, 4) =~= le32(r.state));
    assert(s.subrange(4, 8) =~= le32(r.local_addr));
    assert(s.subrange(8, 12) =~= le32(r.local_port));
    assert(s.subrange(12, 16) =~= le32(r.remote_addr));
    assert(s.subrange(16, 20) =~= le32(r.remote_port));
    assert(s.subrange(20, 24) =~= le32(r.pid));
    lemma_part(b, o, 24, s, 0, le32(r.state));
    lemma_part(b, o, 24, s, 4, le32(r.local_addr));
    lemma_part(b, o, 24, s, 8, le32(r.local_port));
    lemma_part(b, o, 24, s, 12, le32(r.remote_addr));
    lemma_part(b, o, 24, s, 16, le32(r.remote_port));
    lemma_part(b, o, 24, s, 20, le32(r.pid));
    lemma_u32_back(b, o, r.state);
    lemma_u32_back(b, o + 4, r.local_addr);
    lemma_u32_back(b, o + 8, r.local_port);
    lemma_u32_back(b, o + 12, r.remote_addr);
    lemma_u32_back(b, o + 16, r.remote_port);
    lemma_u32_back(b, o + 20, r.pid);
}

proof fn lemma_udp_len(r: UdpRow)
    ensures
        udp_bytes(r).len() == 12,
{
    reveal(udp_bytes);
}

proof fn lemma_udp_row(b: Seq<u8>, o: int, r: UdpRow)
    requires
        0 <= o,
        o + 12 <= b.len(),
        udp_bytes(r) == b.subrange(o, o + 12),
    ensures
        tables::udp_row(b, o) == r,
{
    reveal(udp_bytes);
    let s = udp_bytes(r);
    assert(s.subrange(0, 4) =~= le32(r.local_addr));
    assert(s.subrange(4, 8) =~= le32(r.local_port));
    assert(s.subrange(8, 12) =~= le32(r.pid));
    lemma_part(b, o, 12, s, 0, le32(r.local_addr));
    lemma_part(b, o, 12, s, 4, le32(r.local_port));
    lemma_part(b, o, 12, s, 8, le32(r.pid));
    lemma_u32_back(b, o, r.local_addr);
    lemma_u32_back(b, o + 4, r.local_port);
    lemma_u32_back(b, o + 8, r.pid);
}

proof fn lemma_tcp6_row(b: Seq<u8>, o: int, r: Tcp6Row)
    requires
        0 <= o,
        o + 56 <= b.len(),
        tcp6_bytes(r) == b.subrange(o, o + 56),
    ensures
        tables::tcp6_row(b, o) == r,
{
    reveal(tcp6_bytes);
    let s = tcp6_bytes(r);
    lemma_be_len(r.local_addr);
    lemma_be_len(r.remote_addr);
    assert(s.subrange(0, 16) =~= be(r.local_addr as nat, 16));
    assert(s.subrange(16, 20) =~= le32(r.local_scope));
    assert(s.subrange(20, 24) =~= le32(r.local_port));
    assert(s.subrange(24, 40) =~= be(r.remote_addr as nat, 16));
    assert(s.subrange(40, 44) =~= le32(r.remote_scope));
    assert(s.subrange(44, 48) =~= le32(r.remote_port));
    assert(s.subrange(48, 52) =~= le32(r.state));
    assert(s.subrange(52, 56) =~= le32(r.pid));
    lemma_part(b, o, 56, s, 0, be(r.local_addr as nat, 16));
    lemma_part(b, o, 56, s, 16, le32(r.local_scope));
    lemma_part(b, o, 56, s, 20, le32(r.local_port));
    lemma_part(b, o, 56, s, 24, be(r.remote_addr as nat, 16));
    lemma_part(b, o, 56, s, 40, le32(r.remote_scope));
    lemma_part(b, o, 56, s, 44, le32(r.remote_port));
    lemma_part(b, o, 56, s, 48, le32(r.state));
    lemma_part(b, o, 56, s, 52, le32(r.pid));
    lemma_u128_back(b, o, r.local_addr);
    lemma_u32_back(b, o + 16, r.local_scope);
    lemma_u32_back(b, o + 20, r.local_port);
    lemma_u128_back(b, o + 24, r.remote_addr);
    lemma_u32_back(b, o + 40, r.remote_scope);
    lemma_u32_back(b, o + 44, r.remote_port);
    lemma_u32_back(b, o + 48, r.state);
    lemma_u32_back(b, o + 52, r.pid);
}

proof fn lemma_udp6_row(b: Seq<u8>, o: int, r: Udp6Row, scope: u32)
    requires
        0 <= o,
        o + 28 <= b.len(),
        udp6_bytes(r, scope) == b.subrange(o, o + 28),
    ensures
        tables::udp6_row(b, o) == r,
{
    reveal(udp6_bytes);
    let s = udp6_bytes(r, scope);
    lemma_be_len(r.local_addr);
    assert(s.subrange(0, 16) =~= be(r.local_addr as nat, 16));
    assert(s.subrange(20, 24) =~= le32(r.local_port));
    assert(s.subrange(24, 28) =~= le32(r.pid));
    lemma_part(b, o, 28, s, 0, be(r.local_addr as nat, 16));
    lemma_part(b, o, 28, s, 20, le32(r.local_port));
    lemma_part(b, o, 28, s, 24, le32(r.pid));
    lemma_u128_back(b, o, r.local_addr);
    lemma_u32_back(b, o + 20, r.local_port);
    lemma_u32_back(b, o + 24, r.pid);
}

/// An IPv4 TCP table of any number of rows reads back as those rows.
pub proof fn law_tcp_table_reads_back(t: Tables, rows: Seq<TcpRow>)
    requires
        t.tcp.status == 0,
        holds_table(t.tcp.buf@, rows.map_values(|r: TcpRow| tcp_bytes(r))),
    ensures
        t.tcp_rows() == rows,
{
    let bs = rows.map_values(|r: TcpRow| tcp_bytes(r));
    assert forall|i: int| 0 <= i < bs.len() implies (#[trigger] bs[i]).len() == 24 by {
        lemma_tcp_len(rows[i]);
    }
    lemma_table(t.tcp, bs, 24);
    assert forall|k: int| 0 <= k < rows.len() implies t.tcp_rows()[k] == rows[k] by {
        assert(bs[k] == tcp_bytes(rows[k]));
        lemma_table_row(t.tcp, bs, 24, k);
        lemma_tcp_row(t.tcp.buf@, 4 + 24 * k, rows[k]);
    }
    assert(t.tcp_rows() =~= rows);
}

/// An IPv4 UDP table of any number of rows reads back as those rows.
pub proof fn law_udp_table_reads_back(t: Tables, rows: Seq<UdpRow>)
    requires
        t.udp.status == 0,
        holds_table(t.udp.buf@, rows.map_values(|r: UdpRow| udp_bytes(r))),
    ensures
        t.udp_rows() == rows,
{
    let bs = rows.map_values(|r: UdpRow| udp_bytes(r));
    assert forall|i: int| 0 <= i < bs.len() implies (#[trigger] bs[i]).len() == 12 by {
        lemma_udp_len(rows[i]);
    }
    lemma_table(t.udp, bs, 12);
    assert forall|k: int| 0 <= k < rows.len() implies t.udp_rows()[k] == rows[k] by {
        assert(bs[k] == udp_bytes(rows[k]));
        lemma_table_row(t.udp, bs, 12, k);
        lemma_udp_row(t.udp.buf@, 4 + 12 * k, rows[k]);
    }
    assert(t.udp_rows() =~= rows);
}

/// An IPv6 TCP table of any number of rows reads back as those rows.
pub proof fn law_tcp6_table_reads_back(t: Tables, rows: Seq<Tcp6Row>)
    requires
        t.tcp6.status == 0,
        holds_table(t.tcp6.buf@, rows.map_values(|r: Tcp6Row| tcp6_bytes(r))),
    ensures
        t.tcp6_rows() == rows,
{
    reveal(tcp6_bytes);
    let bs = rows.map_values(|r: Tcp6Row| tcp6_bytes(r));
    assert forall|i: int| 0 <= i < bs.len() implies (#[trigger] bs[i]).len() == 56 by {
        lemma_be_len(rows[i].local_addr);
        lemma_be_len(rows[i].remote_addr);
    }
    lemma_table(t.tcp6, bs, 56);
    assert forall|k: int| 0 <= k < rows.len() implies t.tcp6_rows()[k] == rows[k] by {
        assert(bs[k] == tcp6_bytes(rows[k]));
        lemma_table_row(t.tcp6, bs, 56, k);
        lemma_tcp6_row(t.tcp6.buf@, 4 + 56 * k, rows[k]);
    }
    assert(t.tcp6_rows() =~= rows);
}

/// An IPv6 UDP table of any number of rows reads back as those rows, whatever the
/// scopes of their addresses.
pub proof fn law_udp6_table_reads_back(t: Tables, rows: Seq<Udp6Row>, scopes: Seq<u32>)
    requires
        t.udp6.status == 0,
        holds_table(t.udp6.buf@, Seq::new(rows.len(), |i: int| udp6_bytes(rows[i], scopes[i]))),
    ensures
        t.udp6_rows() == rows,
{
    reveal(udp6_bytes);
    let bs = Seq::new(rows.len(), |i: int| udp6_bytes(rows[i], scopes[i]));
    assert forall|i: int| 0 <= i < bs.len() implies (#[trigger] bs[i]).len() == 28 by {
        lemma_be_len(rows[i].local_addr);
    }
    lemma_table(t.udp6, bs, 28);
    assert forall|k: int| 0 <= k < rows.len() implies t.udp6_rows()[k] == rows[k] by {
        assert(bs[k] == udp6_bytes(rows[k], scopes[k]));
        lemma_table_row(t.udp6, bs, 28, k);
        lemma_udp6_row(t.udp6.buf@, 4 + 28 * k, rows[k], scopes[k]);
    }
    assert(t.udp6_rows() =~= rows);
}

} // verus!
