//! What holds of the log and the open connections over the whole life of the monitor.

use vstd::prelude::*;
use crate::active;
use crate::clock;
use crate::dns;
use crate::event;
use crate::event::{EventView, RecordView, TcpDataTotals};
use crate::model::{ActionView, After, MonitorView, PhaseView, QueueView, Reply, ScanView};
use crate::tables;

verus! {

broadcast use vstd::seq_lib::group_seq_properties;

/// The events that an action writes to the logs.
pub open spec fn events_of(a: ActionView) -> Seq<EventView> {
    match a {
        ActionView::Log(events) => events,
        _ => Seq::empty(),
    }
}

impl MonitorView {
    /// The state after the answers `rs`.
    pub open spec fn run(self, rs: Seq<Reply>) -> MonitorView
        decreases rs.len(),
    {
        if rs.len() == 0 {
            self
        } else {
            self.run(rs.drop_last()).step(rs.last()).0
        }
    }

    /// All that is logged on the answers `rs`, in order.
    pub open spec fn log(self, rs: Seq<Reply>) -> Seq<EventView>
        decreases rs.len(),
    {
        if rs.len() == 0 {
            Seq::empty()
        } else {
            self.log(rs.drop_last()) + events_of(self.run(rs.drop_last()).step(rs.last()).1)
        }
    }

    /// Whether each of `rs` answers what was asked for.
    pub open spec fn asked_for(self, rs: Seq<Reply>) -> bool
        decreases rs.len(),
    {
        rs.len() > 0 ==> self.asked_for(rs.drop_last()) && self.run(rs.drop_last()).awaits(
            rs.last(),
        )
    }
}

/// The key of the connection that an event reports as opened or closed.
pub open spec fn event_key(e: EventView) -> Seq<char> {
    match e {
        EventView::Open { proto, local, remote, .. } => proto + "|"@ + local + "|"@ + remote,
        EventView::Closed { proto, local, remote, .. } => proto + "|"@ + local + "|"@ + remote,
        _ => Seq::empty(),
    }
}

/// The keys that a log leaves open.
pub open spec fn left_open(log: Seq<EventView>) -> Set<Seq<char>>
    decreases log.len(),
{
    if log.len() == 0 {
        Set::empty()
    } else {
        let before = left_open(log.drop_last());
        match log.last() {
            EventView::Open { .. } => before.insert(event_key(log.last())),
            EventView::Closed { .. } => before.remove(event_key(log.last())),
            _ => before,
        }
    }
}

/// Whether in a log each connection is opened only while it is not open, and closed
/// only while it is.
pub open spec fn alternates(log: Seq<EventView>) -> bool
    decreases log.len(),
{
    log.len() > 0 ==> {
        let before = left_open(log.drop_last());
        &&& alternates(log.drop_last())
        &&& log.last() is Open ==> !before.contains(event_key(log.last()))
        &&& log.last() is Closed ==> before.contains(event_key(log.last()))
    }
}

/// Whether one of the records of `q` from its position on has the key `k`.
pub open spec fn is_queued(q: QueueView, k: Seq<char>) -> bool {
    exists|i: int| q.at <= i < q.records.len() && (#[trigger] q.records[i]).conn.key() == k
}

/// Whether the connection with the key `k` is reported as open without being in
/// the list of open connections: not yet there, or not there any more.
pub open spec fn in_flight(p: PhaseView, k: Seq<char>) -> bool {
    match p {
        PhaseView::OpenLogged { scan, .. } | PhaseView::OpenClock { scan, .. } => k
            == scan.conn().key(),
        PhaseView::CloseClock { queue }
        | PhaseView::CloseParse { queue, .. }
        | PhaseView::CloseName { queue, .. }
        | PhaseView::CloseTotals { queue, .. }
        | PhaseView::CloseLogged { queue } => is_queued(queue, k),
        _ => false,
    }
}

/// What holds of the open and the gone connections between any two steps.
spec fn settled(m: MonitorView) -> bool {
    &&& active::distinct_keys(m.active)
    &&& m.phase_wf()
    &&& match m.phase {
        PhaseView::CloseClock { queue }
        | PhaseView::CloseParse { queue, .. }
        | PhaseView::CloseName { queue, .. }
        | PhaseView::CloseTotals { queue, .. }
        | PhaseView::CloseLogged { queue } => queue_wf(m.active, queue),
        _ => true,
    }
}

spec fn queue_wf(s: Seq<RecordView>, q: QueueView) -> bool {
    &&& active::distinct_keys(q.records)
    &&& forall|i: int|
        0 <= i < q.records.len() ==> !active::is_open(s, (#[trigger] q.records[i]).conn.key())
}

/// Whether `log` is a log that leads to `m`.
spec fn accounts(m: MonitorView, log: Seq<EventView>) -> bool {
    &&& settled(m)
    &&& alternates(log)
    &&& forall|k: Seq<char>| #[trigger]
        left_open(log).contains(k) <==> active::is_open(m.active, k) || in_flight(m.phase, k)
}

proof fn lemma_log_one(log: Seq<EventView>, e: EventView)
    ensures
        (log + seq![e]).drop_last() == log,
        (log + seq![e]).last() == e,
        log + Seq::<EventView>::empty() == log,
{
    assert((log + seq![e]).drop_last() =~= log);
    assert(log + Seq::<EventView>::empty() =~= log);
}

/// Events that report neither an opening nor a closing leave the account as it is.
proof fn lemma_log_others(log: Seq<EventView>, es: Seq<EventView>)
    requires
        forall|i: int| 0 <= i < es.len() ==> !(#[trigger] es[i] is Open) && !(es[i] is Closed),
    ensures
        left_open(log + es) == left_open(log),
        alternates(log + es) == alternates(log),
    decreases es.len(),
{
    if es.len() == 0 {
        assert(log + es =~= log);
    } else {
        let d = es.drop_last();
        assert forall|i: int| 0 <= i < d.len() implies !(#[trigger] d[i] is Open) && !(
        d[i] is Closed) by {
            assert(es[i] == d[i]);
        }
        lemma_log_others(log, d);
        assert((log + es).drop_last() =~= log + d);
        assert((log + es).last() == es.last());
        assert(es[es.len() - 1] == es.last());
    }
}

proof fn lemma_scan_accounts(m: MonitorView, s: ScanView, log: Seq<EventView>)
    requires
        active::distinct_keys(m.active),
        0 <= s.at <= s.conns.len(),
        alternates(log),
        forall|k: Seq<char>| #[trigger] left_open(log).contains(k) <==> active::is_open(m.active, k),
    ensures
        accounts(m.scan_on(s).0, log + events_of(m.scan_on(s).1)),
{
    let at = active::next_news(m.active, s.conns, s.at);
    active::lemma_next_news(m.active, s.conns, s.at);
    let n = m.scan_on(s).0;
    let log1 = log + events_of(m.scan_on(s).1);
    if at >= s.conns.len() {
        let p = |r: RecordView| active::is_listed(s.conns, r.conn.key());
        let q = |r: RecordView| !active::is_listed(s.conns, r.conn.key());
        let kept = active::fresh(m.active, s.conns);
        let gone = active::stale(m.active, s.conns);
        active::lemma_filter_keys(m.active, p);
        active::lemma_filter_keys(m.active, q);
        let queue = QueueView {
            records: gone,
            at: 0,
            after: After::Polled { pids: s.pids as usize, conns: s.conns.len() as usize },
        };
        assert forall|i: int| 0 <= i < gone.len() implies !active::is_open(
            kept,
            (#[trigger] gone[i]).conn.key(),
        ) by {
            assert(active::is_open(gone, gone[i].conn.key()));
        }
        assert forall|k: Seq<char>| #[trigger] left_open(log).contains(k) <==> active::is_open(
            kept,
            k,
        ) || is_queued(queue, k) by {
            if is_queued(queue, k) {
                assert(active::is_open(gone, k));
            }
            if active::is_open(gone, k) {
                let i = choose|i: int| 0 <= i < gone.len() && (#[trigger] gone[i]).conn.key() == k;
                assert(queue.records[i].conn.key() == k);
            }
            if active::is_open(m.active, k) {
                let r = m.active[active::position(m.active, k)];
                assert(p(r) || q(r));
            }
        }
        assert(log1 =~= log);
        assert(settled(n));
        assert(accounts(n, log));
    } else if active::is_open(m.active, s.conns[at].key()) {
        active::lemma_with_state(m.active, s.conns[at]);
        let e = event::state_event(
            s.conns[at],
            m.active[active::position(m.active, s.conns[at].key())].conn.state,
        );
        lemma_log_one(log, e);
        assert(left_open(log1) == left_open(log));
        assert(settled(n));
        assert(accounts(n, log1));
    } else {
        assert(log1 =~= log);
        assert(settled(n));
        assert(accounts(n, log1));
    }
}

/// Steps that neither log an opening or closing nor touch the connections.
proof fn lemma_quiet(m: MonitorView, n: MonitorView, log: Seq<EventView>, a: ActionView)
    requires
        accounts(m, log),
        n.active == m.active,
        forall|k: Seq<char>| #[trigger] in_flight(n.phase, k) <==> in_flight(m.phase, k),
        settled(n),
        forall|i: int|
            0 <= i < events_of(a).len() ==> !(#[trigger] events_of(a)[i] is Open) && !(events_of(
                a,
            )[i] is Closed),
    ensures
        accounts(n, log + events_of(a)),
{
    lemma_log_others(log, events_of(a));
    assert forall|k: Seq<char>| #[trigger]
        left_open(log + events_of(a)).contains(k) <==> active::is_open(n.active, k) || in_flight(
            n.phase,
            k,
        ) by {
        assert(in_flight(n.phase, k) <==> in_flight(m.phase, k));
    }
}

proof fn lemma_report_open(
    m: MonitorView,
    log: Seq<EventView>,
    s: ScanView,
    wall: Seq<char>,
    host: Seq<char>,
)
    requires
        accounts(m, log),
        forall|k: Seq<char>| !(#[trigger] in_flight(m.phase, k)),
        0 <= s.at < s.conns.len(),
        !active::is_open(m.active, s.conn().key()),
    ensures
        accounts(m.report_open(s, wall, host).0, log + events_of(m.report_open(s, wall, host).1)),
{
    let n = m.report_open(s, wall, host).0;
    let e = event::open_event(s.conn(), host);
    let log1 = log + events_of(m.report_open(s, wall, host).1);
    assert(log1 =~= log + seq![e]);
    lemma_log_one(log, e);
    assert(event_key(e) == s.conn().key());
    assert(left_open(log1) == left_open(log).insert(s.conn().key()));
    assert(!in_flight(m.phase, s.conn().key()));
    assert forall|k: Seq<char>| #[trigger]
        left_open(log1).contains(k) <==> active::is_open(n.active, k) || in_flight(n.phase, k) by {
        assert(!in_flight(m.phase, k));
    }
}

proof fn lemma_report_close(
    m: MonitorView,
    log: Seq<EventView>,
    q: QueueView,
    d: u64,
    host: Seq<char>,
    t: TcpDataTotals,
)
    requires
        accounts(m, log),
        forall|k: Seq<char>| #[trigger] in_flight(m.phase, k) <==> is_queued(q, k),
        0 <= q.at < q.records.len(),
        queue_wf(m.active, q),
    ensures
        accounts(m.report_close(q, d, host, t).0, log + events_of(m.report_close(q, d, host, t).1)),
{
    let n = m.report_close(q, d, host, t).0;
    let e = event::close_event(q.record(), d, host, t);
    let log1 = log + events_of(m.report_close(q, d, host, t).1);
    let q1 = QueueView { at: q.at + 1, ..q };
    let key = q.record().conn.key();
    assert(log1 =~= log + seq![e]);
    lemma_log_one(log, e);
    assert(event_key(e) == key);
    assert(is_queued(q, key)) by {
        assert(q.records[q.at].conn.key() == key);
    }
    assert(in_flight(m.phase, key));
    assert(left_open(log).contains(key));
    assert(left_open(log1) == left_open(log).remove(key));
    assert(!active::is_open(m.active, key)) by {
        assert(q.records[q.at].conn.key() == key);
    }
    assert forall|k: Seq<char>| #[trigger]
        left_open(log1).contains(k) <==> active::is_open(n.active, k) || in_flight(n.phase, k) by {
        assert(in_flight(m.phase, k) <==> is_queued(q, k));
        if is_queued(q1, k) {
            let i = choose|i: int|
                q1.at <= i < q1.records.len() && (#[trigger] q1.records[i]).conn.key() == k;
            assert(q.records[i].conn.key() == k);
            assert(q.records[q.at].conn.key() != q.records[i].conn.key());
        }
        if is_queued(q, k) && k != key {
            let i = choose|i: int|
                q.at <= i < q.records.len() && (#[trigger] q.records[i]).conn.key() == k;
            assert(q1.records[i].conn.key() == k);
        }
    }
}

proof fn lemma_close_next(m: MonitorView, log: Seq<EventView>, q: QueueView)
    requires
        active::distinct_keys(m.active),
        alternates(log),
        0 <= q.at <= q.records.len(),
        queue_wf(m.active, q),
        forall|k: Seq<char>| #[trigger]
            left_open(log).contains(k) <==> active::is_open(m.active, k) || is_queued(q, k),
    ensures
        accounts(m.close_next(q).0, log + events_of(m.close_next(q).1)),
{
    let n = m.close_next(q).0;
    assert(log + events_of(m.close_next(q).1) =~= log);
    assert forall|k: Seq<char>| #[trigger]
        left_open(log).contains(k) <==> active::is_open(n.active, k) || in_flight(n.phase, k) by {
        assert(is_queued(q, k) ==> q.at < q.records.len());
    }
}

proof fn lemma_close_host(
    m: MonitorView,
    log: Seq<EventView>,
    q: QueueView,
    d: u64,
    host: Seq<char>,
)
    requires
        accounts(m, log),
        forall|k: Seq<char>| #[trigger] in_flight(m.phase, k) <==> is_queued(q, k),
        0 <= q.at < q.records.len(),
        queue_wf(m.active, q),
    ensures
        accounts(m.close_host(q, d, host).0, log + events_of(m.close_host(q, d, host).1)),
{
    if event::has_totals(q.record().conn) {
        lemma_quiet(m, m.close_host(q, d, host).0, log, m.close_host(q, d, host).1);
    } else {
        lemma_report_close(m, log, q, d, host, TcpDataTotals { tx: 0, rx: 0 });
    }
}

proof fn lemma_begin_accounts(m: MonitorView, log: Seq<EventView>, r: Reply)
    requires
        accounts(m, log),
        m.awaits(r),
        m.phase is Starting || m.phase is Started || m.phase is Paused || m.phase is Listing
            || m.phase is Reading || m.phase is Changed,
    ensures
        accounts(m.step(r).0, log + events_of(m.step(r).1)),
{
    let n = m.step(r).0;
    let a = m.step(r).1;
    match m.phase {
        PhaseView::Changed { pids } => {
            if pids.len() == 0 {
                let q = QueueView { records: m.active, at: 0, after: After::Waiting };
                let e = MonitorView { active: Seq::empty(), ..m };
                assert forall|k: Seq<char>| #[trigger]
                    left_open(log).contains(k) <==> active::is_open(e.active, k) || is_queued(
                        q,
                        k,
                    ) by {
                    assert(!in_flight(m.phase, k));
                    if active::is_open(m.active, k) {
                        let i = choose|i: int|
                            0 <= i < m.active.len() && (#[trigger] m.active[i]).conn.key() == k;
                        assert(q.records[i].conn.key() == k);
                    }
                    if is_queued(q, k) {
                        let i = choose|i: int|
                            q.at <= i < q.records.len() && (#[trigger] q.records[i]).conn.key()
                                == k;
                        assert(m.active[i].conn.key() == k);
                    }
                }
                lemma_close_next(e, log, q);
            } else {
                lemma_quiet(m, n, log, a);
            }
        },
        _ => {
            lemma_quiet(m, n, log, a);
        },
    }
}

proof fn lemma_open_accounts(m: MonitorView, log: Seq<EventView>, r: Reply)
    requires
        accounts(m, log),
        m.awaits(r),
        m.phase is Naming || m.phase is Scanning || m.phase is OpenWall || m.phase is OpenParse
            || m.phase is OpenName || m.phase is OpenLogged || m.phase is OpenClock,
    ensures
        accounts(m.step(r).0, log + events_of(m.step(r).1)),
{
    let n = m.step(r).0;
    let a = m.step(r).1;
    match (m.phase, r) {
        (PhaseView::Naming { count, rows }, Reply::Hosts(hosts)) => {
            let s = ScanView { pids: count, conns: tables::connection_views(rows, hosts@), at: 0 };
            assert(forall|k: Seq<char>| !in_flight(m.phase, k));
            lemma_scan_accounts(m, s, log);
        },
        (PhaseView::Scanning { scan }, Reply::Done) => {
            assert(forall|k: Seq<char>| !in_flight(m.phase, k));
            lemma_scan_accounts(m, scan, log);
        },
        (PhaseView::OpenWall { scan }, Reply::Wall(t)) => {
            match dns::known(m.hosts, scan.conn().rip) {
                Some(host) => {
                    lemma_report_open(m, log, scan, clock::timestamp(t), host);
                },
                None => {
                    lemma_quiet(m, n, log, a);
                },
            }
        },
        (PhaseView::OpenParse { scan, wall }, Reply::Parsed { address }) => {
            if dns::sought(address) is Some {
                lemma_quiet(m, n, log, a);
            } else {
                lemma_report_open(
                    m.with_host(scan.conn().rip, Seq::empty()),
                    log,
                    scan,
                    wall,
                    Seq::empty(),
                );
            }
        },
        (PhaseView::OpenName { scan, wall }, Reply::Name { status, host }) => {
            let h = dns::host_name(status, host@);
            lemma_report_open(m.with_host(scan.conn().rip, h), log, scan, wall, h);
        },
        (PhaseView::OpenClock { scan, wall }, Reply::Clock(t0)) => {
            let rec = RecordView { conn: scan.conn(), t0, t0_wall: wall };
            active::lemma_push(m.active, rec);
            lemma_scan_accounts(
                MonitorView { active: m.active.push(rec), ..m },
                ScanView { at: scan.at + 1, ..scan },
                log,
            );
        },
        _ => {
            lemma_quiet(m, n, log, a);
        },
    }
}

proof fn lemma_close_accounts(m: MonitorView, log: Seq<EventView>, r: Reply)
    requires
        accounts(m, log),
        m.awaits(r),
        m.phase is CloseClock || m.phase is CloseParse || m.phase is CloseName
            || m.phase is CloseTotals || m.phase is CloseLogged,
    ensures
        accounts(m.step(r).0, log + events_of(m.step(r).1)),
{
    let n = m.step(r).0;
    let a = m.step(r).1;
    match (m.phase, r) {
        (PhaseView::CloseClock { queue }, Reply::Clock(now)) => {
            let d = clock::elapsed(queue.record().t0, now);
            match dns::known(m.hosts, queue.record().conn.rip) {
                Some(host) => {
                    lemma_close_host(m, log, queue, d, host);
                },
                None => {
                    lemma_quiet(m, n, log, a);
                },
            }
        },
        (PhaseView::CloseParse { queue, duration }, Reply::Parsed { address }) => {
            if dns::sought(address) is Some {
                lemma_quiet(m, n, log, a);
            } else {
                lemma_close_host(
                    m.with_host(queue.record().conn.rip, Seq::empty()),
                    log,
                    queue,
                    duration,
                    Seq::empty(),
                );
            }
        },
        (PhaseView::CloseName { queue, duration }, Reply::Name { status, host }) => {
            let h = dns::host_name(status, host@);
            lemma_close_host(m.with_host(queue.record().conn.rip, h), log, queue, duration, h);
        },
        (
            PhaseView::CloseTotals { queue, duration, host },
            Reply::Totals { code, sent, received },
        ) => {
            lemma_report_close(m, log, queue, duration, host, event::totals(code, sent, received));
        },
        (PhaseView::CloseLogged { queue }, Reply::Done) => {
            lemma_close_next(m, log, queue);
        },
        _ => {},
    }
}

/// Every step keeps the account.
proof fn lemma_step_accounts(m: MonitorView, log: Seq<EventView>, r: Reply)
    requires
        accounts(m, log),
        m.awaits(r),
    ensures
        accounts(m.step(r).0, log + events_of(m.step(r).1)),
{
    if m.phase is CloseClock || m.phase is CloseParse || m.phase is CloseName
        || m.phase is CloseTotals || m.phase is CloseLogged {
        lemma_close_accounts(m, log, r);
    } else if m.phase is Naming || m.phase is Scanning || m.phase is OpenWall
        || m.phase is OpenParse || m.phase is OpenName || m.phase is OpenLogged
        || m.phase is OpenClock {
        lemma_open_accounts(m, log, r);
    } else {
        lemma_begin_accounts(m, log, r);
    }
}

proof fn lemma_run_accounts(rs: Seq<Reply>)
    requires
        MonitorView::initial().asked_for(rs),
    ensures
        accounts(MonitorView::initial().run(rs), MonitorView::initial().log(rs)),
    decreases rs.len(),
{
    if rs.len() > 0 {
        lemma_run_accounts(rs.drop_last());
        lemma_step_accounts(
            MonitorView::initial().run(rs.drop_last()),
            MonitorView::initial().log(rs.drop_last()),
            rs.last(),
        );
    }
}

/// Over the whole life of the monitor, every connection is reported as opened and as
/// closed or failed in turn, beginning with opened. At each pause the connections
/// that the log leaves open are exactly those that the monitor holds as open.
pub proof fn law_log_alternates(rs: Seq<Reply>)
    requires
        MonitorView::initial().asked_for(rs),
    ensures
        alternates(MonitorView::initial().log(rs)),
        MonitorView::initial().run(rs).phase is Paused ==> forall|k: Seq<char>| #[trigger]
            left_open(MonitorView::initial().log(rs)).contains(k) <==> active::is_open(
                MonitorView::initial().run(rs).active,
                k,
            ),
{
    lemma_run_accounts(rs);
}

/// At any time, no two open connections have one key, and what the monitor is about
/// to report stands within its lists.
pub proof fn law_keys_stay_distinct(rs: Seq<Reply>)
    requires
        MonitorView::initial().asked_for(rs),
    ensures
        active::distinct_keys(MonitorView::initial().run(rs).active),
        MonitorView::initial().run(rs).phase_wf(),
{
    lemma_run_accounts(rs);
}

} // verus!
