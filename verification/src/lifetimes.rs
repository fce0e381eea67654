//! What the log tells of a connection from its opening to its closing, held against
//! what the monitor was told meanwhile.

use vstd::prelude::*;
use crate::active;
use crate::clock;
use crate::clock::LocalTime;
use crate::connection;
use crate::connection::ConnectionView;
use crate::dns;
use crate::event;
use crate::event::{EventView, RecordView, TcpDataTotals, TotalsQuery};
use crate::laws;
use crate::model::{ActionView, MonitorView, PhaseView, QueueView, Reply, ScanView};
use crate::net;
use crate::seqs;
use crate::tables;
use crate::tables::RowsView;

verus! {

broadcast use vstd::seq_lib::group_seq_properties;

/// What an onlooker can note down who sees the questions of the monitor, the answers
/// to them, and the log.
pub ghost struct Book {
    /// The last reading of the monotonic clock.
    pub clock: Option<u128>,
    /// The last reading of the local time.
    pub wall: Option<LocalTime>,
    /// The key of the connection that was reported as opened, as long as the clock was
    /// not read again.
    pub pending: Option<Seq<char>>,
    /// Of each key, the first reading of the clock behind its last opening.
    pub clocks: Map<Seq<char>, u128>,
    /// Of each key, the last reading of the local time before its last opening.
    pub walls: Map<Seq<char>, LocalTime>,
    /// Of each key, the report of its last opening.
    pub openings: Map<Seq<char>, EventView>,
    /// Of each key, the state that was told last.
    pub states: Map<Seq<char>, Seq<char>>,
    /// The query for totals, if there was one since the clock was read.
    pub query: Option<TotalsQuery>,
    /// The answer to it: the status, the bytes sent and the bytes received.
    pub totals: Option<(u32, u64, u64)>,
}

impl Book {
    /// Nothing noted.
    pub open spec fn blank() -> Book {
        Book {
            clock: None,
            wall: None,
            pending: None,
            clocks: Map::empty(),
            walls: Map::empty(),
            openings: Map::empty(),
            states: Map::empty(),
            query: None,
            totals: None,
        }
    }

    /// With the answer `r`, upon which the monitor went on to `a`.
    pub open spec fn and(self, r: Reply, a: ActionView) -> Book {
        let wall = match r {
            Reply::Wall(t) => Some(t),
            _ => self.wall,
        };
        let told = if laws::events_of(a).len() > 0 {
            Some(laws::events_of(a).last())
        } else {
            None
        };
        let key = laws::event_key(told->0);
        let opens = told is Some && told->0 is Open;
        Book {
            clock: match r {
                Reply::Clock(t) => Some(t),
                _ => self.clock,
            },
            wall,
            pending: if opens {
                Some(key)
            } else if r is Clock {
                None
            } else {
                self.pending
            },
            clocks: match (r, self.pending) {
                (Reply::Clock(t), Some(k)) => self.clocks.insert(k, t),
                _ => self.clocks,
            },
            walls: if opens {
                self.walls.insert(key, wall->0)
            } else {
                self.walls
            },
            openings: if opens {
                self.openings.insert(key, told->0)
            } else {
                self.openings
            },
            states: match told {
                Some(EventView::Open { state, .. }) => self.states.insert(key, state),
                Some(EventView::State { key: k, new_state, .. }) => self.states.insert(
                    k,
                    new_state,
                ),
                _ => self.states,
            },
            query: match a {
                ActionView::QueryTotals(q) => Some(q),
                _ => if r is Clock {
                    None
                } else {
                    self.query
                },
            },
            totals: match r {
                Reply::Totals { code, sent, received } => Some((code, sent, received)),
                Reply::Clock(_) => None,
                _ => self.totals,
            },
        }
    }
}

impl MonitorView {
    /// What an onlooker has noted down after the answers `rs`.
    pub open spec fn book(self, rs: Seq<Reply>) -> Book
        decreases rs.len(),
    {
        if rs.len() == 0 {
            Book::blank()
        } else {
            self.book(rs.drop_last()).and(
                rs.last(),
                self.run(rs.drop_last()).step(rs.last()).1,
            )
        }
    }
}

/// Whether `d` are the whole milliseconds from `start` to `now`, none where `now` is
/// the earlier one. (A time too long for 64 bits is left out.)
pub open spec fn are_millis(d: u64, start: u128, now: u128) -> bool {
    &&& now <= start ==> d == 0
    &&& start <= now && now - start < 0x1_0000_0000_0000_0000 * 1_000_000 ==> d * 1_000_000 <= now
        - start < (d + 1) * 1_000_000
}

/// Whether the report `e` of a closing agrees with what was noted down: it repeats
/// whom the connection was with, as its opening told it; tells when that was, and how
/// long it was, from the first reading of the clock behind the opening to the last
/// one, that the connection lasted; has it failed exactly if the state told last was
/// `SYN_SENT`; and tells the bytes that the system answered, zero where it answered
/// none.
pub open spec fn agrees(e: EventView, b: Book) -> bool {
    let k = laws::event_key(e);
    let o = b.openings[k];
    &&& e is Closed
    &&& b.openings.contains_key(k)
    &&& o is Open
    &&& e->Closed_proto == o->Open_proto
    &&& e->Closed_local == o->Open_local
    &&& e->Closed_remote == o->Open_remote
    &&& e->Closed_host == o->Open_host
    &&& e->Closed_service == o->Open_service
    &&& b.walls.contains_key(k)
    &&& e->opened == clock::timestamp(b.walls[k])
    &&& b.clocks.contains_key(k)
    &&& b.clock is Some
    &&& are_millis(e->duration_ms, b.clocks[k], b.clock->0)
    &&& b.states.contains_key(k)
    &&& e->failed <==> b.states[k] == "SYN_SENT"@
    &&& match b.totals {
        Some((code, sent, received)) => b.query is Some && if code == 0 {
            e->bytes_sent == sent && e->bytes_recv == received
        } else {
            e->bytes_sent == 0 && e->bytes_recv == 0
        },
        None => b.query is None && e->bytes_sent == 0 && e->bytes_recv == 0,
    }
    &&& e->Closed_proto == "TCP"@ ==> asks_for(b.query, e->Closed_local, e->Closed_remote)
}

/// Whether `q` asks for the bytes of the IPv4 connection with these ends. Nothing is
/// asked for one to the machine itself or to no address.
pub open spec fn asks_for(q: Option<TotalsQuery>, local: Seq<char>, remote: Seq<char>) -> bool {
    match q {
        Some(TotalsQuery::V4(row)) => {
            &&& row.state == 5
            &&& local == connection::endpoint(
                net::dotted(row.local_addr),
                net::wire_port(row.local_port),
            )
            &&& remote == connection::endpoint(
                net::dotted(row.remote_addr),
                net::wire_port(row.remote_port),
            )
        },
        Some(TotalsQuery::V6(_)) => false,
        None => exists|p: u16|
            remote == #[trigger] connection::endpoint("127.0.0.1"@, p) || remote
                == connection::endpoint(net::dotted(0), p),
    }
}

/// Whether the raw addresses of an IPv4 TCP connection are those of its texts.
spec fn sound(c: ConnectionView) -> bool {
    c.proto == "TCP"@ ==> c.lip == net::dotted(c.lip_raw) && c.rip == net::dotted(c.rip_raw)
}

/// Whether the book knows of the opening of `c`.
spec fn noted(b: Book, hosts: Map<Seq<char>, Seq<char>>, c: ConnectionView, wall: Seq<char>) -> bool {
    let k = c.key();
    let o = b.openings[k];
    &&& sound(c)
    &&& b.openings.contains_key(k)
    &&& o is Open
    &&& o->Open_proto == c.proto
    &&& o->Open_local == c.local()
    &&& o->Open_remote == c.remote()
    &&& o->Open_service == net::service_name(c.rport)
    &&& dns::known(hosts, c.rip) == Some(o->Open_host)
    &&& b.walls.contains_key(k)
    &&& clock::timestamp(b.walls[k]) == wall
    &&& b.states.contains_key(k)
    &&& b.states[k] == net::state_name(c.state)
}

/// Whether the book knows of the record `r`.
spec fn kept(b: Book, hosts: Map<Seq<char>, Seq<char>>, r: RecordView) -> bool {
    &&& noted(b, hosts, r.conn, r.t0_wall)
    &&& b.clocks.contains_key(r.conn.key())
    &&& b.clocks[r.conn.key()] == r.t0
}

spec fn all_kept(b: Book, hosts: Map<Seq<char>, Seq<char>>, s: Seq<RecordView>) -> bool {
    forall|i: int| 0 <= i < s.len() ==> kept(b, hosts, #[trigger] s[i])
}

spec fn all_sound(conns: Seq<ConnectionView>) -> bool {
    forall|i: int| 0 <= i < conns.len() ==> sound(#[trigger] conns[i])
}

spec fn queue_kept(b: Book, hosts: Map<Seq<char>, Seq<char>>, q: QueueView) -> bool {
    &&& 0 <= q.at <= q.records.len()
    &&& all_kept(b, hosts, q.records)
    &&& b.pending is None
}

/// Whether the book and the state of the monitor agree.
spec fn alive(m: MonitorView, b: Book) -> bool {
    &&& active::distinct_keys(m.active)
    &&& all_kept(b, m.hosts, m.active)
    &&& match m.phase {
        PhaseView::Scanning { scan } => all_sound(scan.conns) && b.pending is None && 0 <= scan.at
            <= scan.conns.len(),
        PhaseView::OpenWall { scan } => opening(m, b, scan),
        PhaseView::OpenParse { scan, wall } | PhaseView::OpenName { scan, wall } => {
            &&& opening(m, b, scan)
            &&& dns::known(m.hosts, scan.conn().rip) is None
            &&& b.wall is Some
            &&& wall == clock::timestamp(b.wall->0)
        },
        PhaseView::OpenLogged { scan, wall } | PhaseView::OpenClock { scan, wall } => {
            &&& all_sound(scan.conns)
            &&& 0 <= scan.at < scan.conns.len()
            &&& !active::is_open(m.active, scan.conn().key())
            &&& b.pending == Some(scan.conn().key())
            &&& noted(b, m.hosts, scan.conn(), wall)
        },
        PhaseView::CloseClock { queue } => queue_kept(b, m.hosts, queue) && queue.at
            < queue.records.len(),
        PhaseView::CloseParse { .. } | PhaseView::CloseName { .. } => false,
        PhaseView::CloseTotals { queue, duration, host } => {
            &&& queue_kept(b, m.hosts, queue)
            &&& queue.at < queue.records.len()
            &&& b.clock is Some
            &&& duration == clock::elapsed(queue.record().t0, b.clock->0)
            &&& dns::known(m.hosts, queue.record().conn.rip) == Some(host)
            &&& event::has_totals(queue.record().conn)
            &&& b.query == Some(event::totals_query(queue.record().conn))
        },
        PhaseView::CloseLogged { queue } => queue_kept(b, m.hosts, queue),
        _ => b.pending is None,
    }
}

spec fn opening(m: MonitorView, b: Book, scan: ScanView) -> bool {
    &&& all_sound(scan.conns)
    &&& 0 <= scan.at < scan.conns.len()
    &&& !active::is_open(m.active, scan.conn().key())
    &&& b.pending is None
}

/// What is reported agrees with the book: of every closing, and of every change of
/// state, which tells the state that was told before. Closings are reported singly.
spec fn truthful(a: ActionView, before: Book, after: Book) -> bool {
    &&& forall|i: int|
        0 <= i < laws::events_of(a).len() && #[trigger] laws::events_of(a)[i] is Closed
            ==> laws::events_of(a).len() == 1 && agrees(laws::events_of(a)[i], after)
    &&& forall|i: int|
        0 <= i < laws::events_of(a).len() && #[trigger] laws::events_of(a)[i] is State
            ==> before.states.contains_key(laws::events_of(a)[i]->key)
            && before.states[laws::events_of(a)[i]->key] == laws::events_of(a)[i]->old_state
}

proof fn lemma_protocols()
    ensures
        "TCP"@ != "UDP"@,
        "TCP"@ != "TCP6"@,
        "TCP"@ != "UDP6"@,
{
    reveal_strlit("TCP");
    reveal_strlit("UDP");
    reveal_strlit("TCP6");
    reveal_strlit("UDP6");
    assert("TCP"@[0] == 'T');
    assert("UDP"@[0] == 'U');
    assert("TCP"@.len() != "TCP6"@.len());
    assert("TCP"@.len() != "UDP6"@.len());
}

proof fn lemma_listed_sound(r: RowsView, hosts: Seq<Vec<u8>>)
    ensures
        all_sound(tables::connection_views(r, hosts)),
{
    lemma_protocols();
}

/// A book that says the same of the records still knows them.
proof fn lemma_still_kept(
    b: Book,
    c: Book,
    g: Map<Seq<char>, Seq<char>>,
    h: Map<Seq<char>, Seq<char>>,
    s: Seq<RecordView>,
)
    requires
        all_kept(b, g, s),
        forall|ip: Seq<char>| #[trigger]
            dns::known(g, ip) is Some ==> dns::known(h, ip) == dns::known(g, ip),
        forall|i: int|
            0 <= i < s.len() ==> {
                let k = (#[trigger] s[i]).conn.key();
                &&& c.openings.contains_key(k) && c.openings[k] == b.openings[k]
                &&& c.walls.contains_key(k) && c.walls[k] == b.walls[k]
                &&& c.states.contains_key(k) && c.states[k] == b.states[k]
                &&& c.clocks.contains_key(k) && c.clocks[k] == b.clocks[k]
            },
    ensures
        all_kept(c, h, s),
{
    assert forall|i: int| 0 <= i < s.len() implies kept(c, h, #[trigger] s[i]) by {
        assert(kept(b, g, s[i]));
        assert(dns::known(g, s[i].conn.rip) is Some);
    }
}

/// Picking some of the records the book knows.
proof fn lemma_some_kept(
    b: Book,
    h: Map<Seq<char>, Seq<char>>,
    s: Seq<RecordView>,
    p: spec_fn(RecordView) -> bool,
)
    requires
        all_kept(b, h, s),
    ensures
        all_kept(b, h, s.filter(p)),
{
    let f = s.filter(p);
    seqs::lemma_filter_contains(s, p);
    assert forall|i: int| 0 <= i < f.len() implies kept(b, h, #[trigger] f[i]) by {
        assert(f.contains(f[i]));
        let j = choose|j: int| 0 <= j < s.len() && s[j] == f[i];
        assert(kept(b, h, s[j]));
    }
}

/// Steps on which nothing is reported that the book goes by, and the clock is not
/// read behind an opening.
spec fn silent(b: Book, c: Book) -> bool {
    &&& c.openings == b.openings
    &&& c.walls == b.walls
    &&& c.states == b.states
    &&& c.clocks == b.clocks
    &&& c.pending == b.pending
}

proof fn lemma_silent(b: Book, c: Book, h: Map<Seq<char>, Seq<char>>, s: Seq<RecordView>)
    requires
        silent(b, c),
        all_kept(b, h, s),
    ensures
        all_kept(c, h, s),
{
    assert forall|i: int| 0 <= i < s.len() implies kept(c, h, #[trigger] s[i]) by {
        assert(kept(b, h, s[i]));
    }
}

proof fn lemma_scan(m: MonitorView, s: ScanView, b: Book, r: Reply)
    requires
        active::distinct_keys(m.active),
        all_kept(b.and(r, ActionView::ReadClock), m.hosts, m.active),
        all_sound(s.conns),
        0 <= s.at <= s.conns.len(),
        b.and(r, ActionView::ReadClock).pending is None,
        !(r is Clock) ==> b.pending is None,
    ensures
        alive(m.scan_on(s).0, b.and(r, m.scan_on(s).1)),
        truthful(m.scan_on(s).1, b.and(r, ActionView::ReadClock), b.and(r, m.scan_on(s).1)),
{
    let (n, a) = m.scan_on(s);
    let at = active::next_news(m.active, s.conns, s.at);
    let c0 = b.and(r, ActionView::ReadClock);
    let c = b.and(r, a);
    active::lemma_next_news(m.active, s.conns, s.at);
    if at >= s.conns.len() {
        let p = |x: RecordView| active::is_listed(s.conns, x.conn.key());
        let q = |x: RecordView| !active::is_listed(s.conns, x.conn.key());
        active::lemma_filter_keys(m.active, p);
        lemma_some_kept(c0, m.hosts, m.active, p);
        lemma_some_kept(c0, m.hosts, m.active, q);
        assert(silent(c0, c));
        lemma_silent(c0, c, m.hosts, m.active.filter(p));
        lemma_silent(c0, c, m.hosts, m.active.filter(q));
    } else if active::is_open(m.active, s.conns[at].key()) {
        let x = s.conns[at];
        let i = active::position(m.active, x.key());
        let e = event::state_event(x, m.active[i].conn.state);
        let t = active::with_state(m.active, x);
        active::lemma_with_state(m.active, x);
        assert(kept(c0, m.hosts, m.active[i]));
        assert(m.active[i].conn.key() == x.key());
        assert forall|j: int| 0 <= j < t.len() implies kept(c, m.hosts, #[trigger] t[j]) by {
            assert(kept(c0, m.hosts, m.active[j]));
            assert(t[j].conn.key() == m.active[j].conn.key());
            if j < i {
                assert(m.active[j].conn.key() != m.active[i].conn.key());
            }
            if i < j {
                assert(m.active[i].conn.key() != m.active[j].conn.key());
            }
        }
        assert(laws::events_of(a) =~= seq![e]);
    } else {
        assert(silent(c0, c));
        lemma_silent(c0, c, m.hosts, m.active);
    }
}

proof fn lemma_open(
    m: MonitorView,
    g: Map<Seq<char>, Seq<char>>,
    b: Book,
    r: Reply,
    scan: ScanView,
    wall: Seq<char>,
    host: Seq<char>,
)
    requires
        active::distinct_keys(m.active),
        all_kept(b, g, m.active),
        opening(m, b, scan),
        forall|ip: Seq<char>| #[trigger]
            dns::known(g, ip) is Some ==> dns::known(m.hosts, ip) == dns::known(g, ip),
        dns::known(m.hosts, scan.conn().rip) == Some(host),
        !(r is Clock),
        b.and(r, ActionView::ReadClock).wall is Some,
        wall == clock::timestamp(b.and(r, ActionView::ReadClock).wall->0),
    ensures
        ({
            let (n, a) = m.report_open(scan, wall, host);
            alive(n, b.and(r, a)) && truthful(a, b, b.and(r, a))
        }),
{
    let (n, a) = m.report_open(scan, wall, host);
    let x = scan.conn();
    let e = event::open_event(x, host);
    let c = b.and(r, a);
    assert(laws::events_of(a) =~= seq![e]);
    assert(laws::event_key(e) == x.key());
    assert(sound(scan.conns[scan.at]));
    assert forall|i: int| 0 <= i < m.active.len() implies ({
        let k = (#[trigger] m.active[i]).conn.key();
        &&& c.openings.contains_key(k) && c.openings[k] == b.openings[k]
        &&& c.walls.contains_key(k) && c.walls[k] == b.walls[k]
        &&& c.states.contains_key(k) && c.states[k] == b.states[k]
        &&& c.clocks.contains_key(k) && c.clocks[k] == b.clocks[k]
    }) by {
        assert(kept(b, g, m.active[i]));
        assert(m.active[i].conn.key() != x.key());
    }
    lemma_still_kept(b, c, g, m.hosts, m.active);
}

proof fn lemma_asks(c: ConnectionView)
    requires
        sound(c),
        c.proto == "TCP"@,
    ensures
        event::has_totals(c) ==> asks_for(Some(event::totals_query(c)), c.local(), c.remote()),
        !event::has_totals(c) ==> asks_for(None, c.local(), c.remote()),
{
    lemma_protocols();
    net::law_port_round_trip(c.lport);
    net::law_port_round_trip(c.rport);
    if !event::has_totals(c) {
        assert(c.remote() == connection::endpoint(c.rip, c.rport));
        if c.rip == "127.0.0.1"@ {
            assert(c.remote() == connection::endpoint("127.0.0.1"@, c.rport));
        } else {
            let l = connection::endpoint("127.0.0.1"@, c.rport);
            assert(c.remote() == connection::endpoint(net::dotted(0), c.rport));
        }
    }
}

/// The report of a closing agrees with the book.
proof fn lemma_closed(
    m: MonitorView,
    b: Book,
    r: Reply,
    q: QueueView,
    d: u64,
    host: Seq<char>,
    t: TcpDataTotals,
)
    requires
        active::distinct_keys(m.active),
        all_kept(b, m.hosts, m.active),
        queue_kept(b, m.hosts, q),
        q.at < q.records.len(),
        dns::known(m.hosts, q.record().conn.rip) == Some(host),
        ({
            let c = b.and(r, ActionView::ReadTables);
            &&& c.clock is Some
            &&& d == clock::elapsed(q.record().t0, c.clock->0)
            &&& event::has_totals(q.record().conn) ==> c.query == Some(
                event::totals_query(q.record().conn),
            ) && (c.totals matches Some((code, sent, received)) && t == event::totals(
                code,
                sent,
                received,
            ))
            &&& !event::has_totals(q.record().conn) ==> c.query is None && c.totals is None && t
                == (TcpDataTotals { tx: 0, rx: 0 })
        }),
    ensures
        ({
            let (n, a) = m.report_close(q, d, host, t);
            alive(n, b.and(r, a)) && truthful(a, b, b.and(r, a))
        }),
{
    let (n, a) = m.report_close(q, d, host, t);
    let rec = q.record();
    let e = event::close_event(rec, d, host, t);
    let c = b.and(r, a);
    assert(laws::events_of(a) =~= seq![e]);
    assert(laws::event_key(e) == rec.conn.key());
    assert(kept(b, m.hosts, q.records[q.at]));
    assert(silent(b, c));
    lemma_silent(b, c, m.hosts, m.active);
    lemma_silent(b, c, m.hosts, q.records);
    clock::law_elapsed(rec.t0, c.clock->0);
    net::law_syn_sent_by_name(rec.conn.state);
    if rec.conn.proto == "TCP"@ {
        lemma_asks(rec.conn);
    }
    assert(agrees(e, c));
}

proof fn lemma_close_next(m: MonitorView, b: Book, r: Reply, q: QueueView)
    requires
        active::distinct_keys(m.active),
        all_kept(b, m.hosts, m.active),
        queue_kept(b, m.hosts, q),
    ensures
        ({
            let (n, a) = m.close_next(q);
            alive(n, b.and(r, a)) && truthful(a, b, b.and(r, a))
        }),
{
    let (n, a) = m.close_next(q);
    let c = b.and(r, a);
    assert(silent(b, c));
    lemma_silent(b, c, m.hosts, m.active);
    lemma_silent(b, c, m.hosts, q.records);
}

proof fn lemma_step_close(m: MonitorView, b: Book, r: Reply)
    requires
        alive(m, b),
        m.awaits(r),
        m.phase is CloseClock || m.phase is CloseParse || m.phase is CloseName
            || m.phase is CloseTotals || m.phase is CloseLogged,
    ensures
        alive(m.step(r).0, b.and(r, m.step(r).1)),
        truthful(m.step(r).1, b, b.and(r, m.step(r).1)),
{
    match (m.phase, r) {
        (PhaseView::CloseClock { queue }, Reply::Clock(now)) => {
            let rec = queue.record();
            let d = clock::elapsed(rec.t0, now);
            assert(kept(b, m.hosts, queue.records[queue.at]));
            let host = dns::known(m.hosts, rec.conn.rip)->0;
            if event::has_totals(rec.conn) {
                let c = b.and(r, m.step(r).1);
                assert(silent(b, c));
                lemma_silent(b, c, m.hosts, m.active);
                lemma_silent(b, c, m.hosts, queue.records);
            } else {
                lemma_closed(m, b, r, queue, d, host, TcpDataTotals { tx: 0, rx: 0 });
            }
        },
        (
            PhaseView::CloseTotals { queue, duration, host },
            Reply::Totals { code, sent, received },
        ) => {
            let t = event::totals(code, sent, received);
            lemma_closed(m, b, r, queue, duration, host, t);
        },
        (PhaseView::CloseLogged { queue }, Reply::Done) => {
            lemma_close_next(m, b, r, queue);
        },
        _ => {},
    }
}

proof fn lemma_step_scan(m: MonitorView, b: Book, r: Reply)
    requires
        alive(m, b),
        m.awaits(r),
        m.phase is Naming || m.phase is Scanning,
    ensures
        alive(m.step(r).0, b.and(r, m.step(r).1)),
        truthful(m.step(r).1, b, b.and(r, m.step(r).1)),
{
    let c0 = b.and(r, ActionView::ReadClock);
    assert(silent(b, c0));
    lemma_silent(b, c0, m.hosts, m.active);
    match (m.phase, r) {
        (PhaseView::Naming { count, rows }, Reply::Hosts(hosts)) => {
            let s = ScanView { pids: count, conns: tables::connection_views(rows, hosts@), at: 0 };
            lemma_listed_sound(rows, hosts@);
            lemma_scan(m, s, b, r);
        },
        (PhaseView::Scanning { scan }, Reply::Done) => {
            lemma_scan(m, scan, b, r);
        },
        _ => {},
    }
}

proof fn lemma_step_opened(m: MonitorView, b: Book, r: Reply)
    requires
        alive(m, b),
        m.awaits(r),
        m.phase is OpenLogged || m.phase is OpenClock,
    ensures
        alive(m.step(r).0, b.and(r, m.step(r).1)),
        truthful(m.step(r).1, b, b.and(r, m.step(r).1)),
{
    let c0 = b.and(r, ActionView::ReadClock);
    match (m.phase, r) {
        (PhaseView::OpenLogged { scan, wall }, Reply::Done) => {
            assert(silent(b, c0));
            lemma_silent(b, c0, m.hosts, m.active);
        },
        (PhaseView::OpenClock { scan, wall }, Reply::Clock(t0)) => {
            let rec = RecordView { conn: scan.conn(), t0, t0_wall: wall };
            let k = MonitorView { active: m.active.push(rec), ..m };
            active::lemma_push(m.active, rec);
            assert forall|i: int| 0 <= i < k.active.len() implies kept(
                c0,
                m.hosts,
                #[trigger] k.active[i],
            ) by {
                if i < m.active.len() {
                    assert(kept(b, m.hosts, m.active[i]));
                    assert(m.active[i].conn.key() != scan.conn().key());
                }
            }
            lemma_scan(k, ScanView { at: scan.at + 1, ..scan }, b, r);
            assert(m.step(r) == k.scan_on(ScanView { at: scan.at + 1, ..scan }));
            assert(b.states == c0.states);
        },
        _ => {},
    }
}

proof fn lemma_step_open(m: MonitorView, b: Book, r: Reply)
    requires
        alive(m, b),
        m.awaits(r),
        m.phase is OpenWall || m.phase is OpenParse || m.phase is OpenName,
    ensures
        alive(m.step(r).0, b.and(r, m.step(r).1)),
        truthful(m.step(r).1, b, b.and(r, m.step(r).1)),
{
    let c = b.and(r, m.step(r).1);
    match (m.phase, r) {
        (PhaseView::OpenWall { scan }, Reply::Wall(t)) => {
            match dns::known(m.hosts, scan.conn().rip) {
                Some(host) => {
                    lemma_open(m, m.hosts, b, r, scan, clock::timestamp(t), host);
                },
                None => {
                    assert(silent(b, c));
                    lemma_silent(b, c, m.hosts, m.active);
                },
            }
        },
        (PhaseView::OpenParse { scan, wall }, Reply::Parsed { address }) => {
            if dns::sought(address) is Some {
                assert(silent(b, c));
                lemma_silent(b, c, m.hosts, m.active);
            } else {
                let k = m.with_host(scan.conn().rip, Seq::empty());
                lemma_open(k, m.hosts, b, r, scan, wall, Seq::empty());
            }
        },
        (PhaseView::OpenName { scan, wall }, Reply::Name { status, host }) => {
            let name = dns::host_name(status, host@);
            let k = m.with_host(scan.conn().rip, name);
            lemma_open(k, m.hosts, b, r, scan, wall, name);
        },
        _ => {},
    }
}

proof fn lemma_step_begin(m: MonitorView, b: Book, r: Reply)
    requires
        alive(m, b),
        m.awaits(r),
        m.phase is Starting || m.phase is Started || m.phase is Paused || m.phase is Listing
            || m.phase is Reading || m.phase is Changed,
    ensures
        alive(m.step(r).0, b.and(r, m.step(r).1)),
        truthful(m.step(r).1, b, b.and(r, m.step(r).1)),
{
    let (n, a) = m.step(r);
    let c = b.and(r, a);
    match m.phase {
        PhaseView::Changed { pids } => {
            if pids.len() == 0 {
                let k = MonitorView { active: Seq::empty(), ..m };
                let q = QueueView {
                    records: m.active,
                    at: 0,
                    after: crate::model::After::Waiting,
                };
                lemma_close_next(k, b, r, q);
            } else {
                assert(silent(b, c));
                lemma_silent(b, c, m.hosts, m.active);
            }
        },
        _ => {
            assert(silent(b, c));
            lemma_silent(b, c, m.hosts, m.active);
        },
    }
}

proof fn lemma_run_alive(rs: Seq<Reply>)
    requires
        MonitorView::initial().asked_for(rs),
    ensures
        alive(MonitorView::initial().run(rs), MonitorView::initial().book(rs)),
        rs.len() > 0 ==> truthful(
            MonitorView::initial().last_action(rs),
            MonitorView::initial().book(rs.drop_last()),
            MonitorView::initial().book(rs),
        ),
    decreases rs.len(),
{
    if rs.len() > 0 {
        let d = rs.drop_last();
        lemma_run_alive(d);
        let m = MonitorView::initial().run(d);
        let b = MonitorView::initial().book(d);
        let r = rs.last();
        if m.phase is CloseClock || m.phase is CloseParse || m.phase is CloseName
            || m.phase is CloseTotals || m.phase is CloseLogged {
            lemma_step_close(m, b, r);
        } else if m.phase is Naming || m.phase is Scanning {
            lemma_step_scan(m, b, r);
        } else if m.phase is OpenLogged || m.phase is OpenClock {
            lemma_step_opened(m, b, r);
        } else if m.phase is OpenWall || m.phase is OpenParse || m.phase is OpenName {
            lemma_step_open(m, b, r);
        } else {
            lemma_step_begin(m, b, r);
        }
    }
}

/// Over the whole life of the monitor, every report of a closing agrees with what an
/// onlooker noted down: with whom the connection was, when it opened, how long it
/// lasted by the clock, whether it failed, and what it carried. Closings are reported
/// one at a time.
pub proof fn law_closings_are_true(rs: Seq<Reply>, i: int)
    requires
        rs.len() > 0,
        MonitorView::initial().asked_for(rs),
        0 <= i < laws::events_of(MonitorView::initial().last_action(rs)).len(),
        laws::events_of(MonitorView::initial().last_action(rs))[i] is Closed,
    ensures
        laws::events_of(MonitorView::initial().last_action(rs)).len() == 1,
        agrees(
            laws::events_of(MonitorView::initial().last_action(rs))[i],
            MonitorView::initial().book(rs),
        ),
{
    lemma_run_alive(rs);
}

/// Over the whole life of the monitor, every report of a change of state tells as the
/// old state the one that was told before.
pub proof fn law_state_changes_follow_each_other(rs: Seq<Reply>, i: int)
    requires
        rs.len() > 0,
        MonitorView::initial().asked_for(rs),
        0 <= i < laws::events_of(MonitorView::initial().last_action(rs)).len(),
        laws::events_of(MonitorView::initial().last_action(rs))[i] is State,
    ensures
        ({
            let e = laws::events_of(MonitorView::initial().last_action(rs))[i];
            let before = MonitorView::initial().book(rs.drop_last());
            before.states.contains_key(e->key) && before.states[e->key] == e->old_state
        }),
{
    lemma_run_alive(rs);
}

/// At any time, of every open connection the monitor holds the reading of the clock
/// that was the first behind the report of its opening, and the local time that was
/// read last before it.
pub proof fn law_records_hold_their_opening(rs: Seq<Reply>, i: int)
    requires
        MonitorView::initial().asked_for(rs),
        0 <= i < MonitorView::initial().run(rs).active.len(),
    ensures
        ({
            let r = MonitorView::initial().run(rs).active[i];
            let b = MonitorView::initial().book(rs);
            let k = r.conn.key();
            &&& b.clocks.contains_key(k) && r.t0 == b.clocks[k]
            &&& b.walls.contains_key(k) && r.t0_wall == clock::timestamp(b.walls[k])
            &&& b.states.contains_key(k) && net::state_name(r.conn.state) == b.states[k]
        }),
{
    lemma_run_alive(rs);
    assert(kept(
        MonitorView::initial().book(rs),
        MonitorView::initial().run(rs).hosts,
        MonitorView::initial().run(rs).active[i],
    ));
}

/// Closing a connection never takes a lookup: its host was found when it opened.
pub proof fn law_closing_takes_no_lookup(rs: Seq<Reply>)
    requires
        MonitorView::initial().asked_for(rs),
    ensures
        !(MonitorView::initial().run(rs).phase is CloseParse),
        !(MonitorView::initial().run(rs).phase is CloseName),
{
    lemma_run_alive(rs);
}

} // verus!
