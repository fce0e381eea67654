//! What the monitor reports from the moment it has its list of connections, or
//! learns that no watched process is running, to the next pause.

use vstd::prelude::*;
use crate::active;
use crate::clock;
use crate::connection::ConnectionView;
use crate::dns;
use crate::event;
use crate::event::{EventView, RecordView, TcpDataTotals};
use crate::laws;
use crate::model;
use crate::model::{ActionView, After, MonitorView, PhaseView, QueueView, Reply, ScanView};
use crate::net;
use crate::rounds;
use crate::rounds::{Closing, StateChange};
use crate::seqs;
use crate::tables;

verus! {

broadcast use vstd::seq_lib::group_seq_properties;

/// What the monitor was told about connections that are gone: the readings of the
/// clock and the bytes carried.
#[verifier::ext_equal]
pub ghost struct Heard {
    pub clocks: Seq<u128>,
    pub totals: Seq<TcpDataTotals>,
}

impl Heard {
    /// With what `r` tells the monitor `m` about the connection it is closing.
    pub open spec fn and(self, m: MonitorView, r: Reply) -> Heard {
        match (m.phase, r) {
            (PhaseView::CloseClock { .. }, Reply::Clock(now)) => Heard {
                clocks: self.clocks.push(now),
                ..self
            },
            (PhaseView::CloseTotals { .. }, Reply::Totals { code, sent, received }) => Heard {
                totals: self.totals.push(event::totals(code, sent, received)),
                ..self
            },
            _ => self,
        }
    }
}

impl MonitorView {
    /// What the monitor asked for last on the answers `rs`.
    pub open spec fn last_action(self, rs: Seq<Reply>) -> ActionView
        recommends
            rs.len() > 0,
    {
        self.run(rs.drop_last()).step(rs.last()).1
    }

    /// What the answers `rs` told about connections that are gone.
    pub open spec fn heard(self, rs: Seq<Reply>) -> Heard
        decreases rs.len(),
    {
        if rs.len() == 0 {
            Heard { clocks: Seq::empty(), totals: Seq::empty() }
        } else {
            self.heard(rs.drop_last()).and(self.run(rs.drop_last()), rs.last())
        }
    }

    /// Whether the answers `rs` lead up to the next pause and not beyond it.
    pub open spec fn reaches_pause(self, rs: Seq<Reply>) -> bool {
        &&& rs.len() > 0
        &&& self.asked_for(rs)
        &&& forall|i: int|
            0 < i <= rs.len() ==> (#[trigger] self.run(rs.take(i)).phase is Paused <==> i
                == rs.len())
    }
}

proof fn lemma_tells_nothing(log: Seq<EventView>, a: ActionView)
    requires
        !(a is Log),
    ensures
        log + laws::events_of(a) == log,
{
    assert(log + laws::events_of(a) =~= log);
}

proof fn lemma_tells_one(log: Seq<EventView>, e: EventView)
    ensures
        rounds::openings(log + seq![e]) == if e is Open {
            rounds::openings(log).push(e)
        } else {
            rounds::openings(log)
        },
        rounds::state_changes(log + seq![e]) == if e is State {
            rounds::state_changes(log).push(e)
        } else {
            rounds::state_changes(log)
        },
        rounds::closings(log + seq![e]) == if e is Closed {
            rounds::closings(log).push(e)
        } else {
            rounds::closings(log)
        },
{
    reveal(Seq::filter);
    assert((log + seq![e]).drop_last() =~= log);
}

proof fn lemma_tells_open(
    log: Seq<EventView>,
    opened: Seq<ConnectionView>,
    changed: Seq<StateChange>,
    closed: Seq<Closing>,
    c: ConnectionView,
    host: Seq<char>,
)
    requires
        rounds::tells(log, opened, changed, closed),
    ensures
        rounds::tells(log + seq![event::open_event(c, host)], opened.push(c), changed, closed),
{
    let e = event::open_event(c, host);
    lemma_tells_one(log, e);
    assert(rounds::reports_open(e, c));
    let log1 = log + seq![e];
    assert forall|i: int| 0 <= i < opened.push(c).len() implies rounds::reports_open(
        #[trigger] rounds::openings(log1)[i],
        opened.push(c)[i],
    ) by {
        if i < opened.len() {
            assert(rounds::openings(log1)[i] == rounds::openings(log)[i]);
        }
    }
}

proof fn lemma_tells_changed(
    log: Seq<EventView>,
    opened: Seq<ConnectionView>,
    changed: Seq<StateChange>,
    closed: Seq<Closing>,
    c: StateChange,
)
    requires
        rounds::tells(log, opened, changed, closed),
    ensures
        rounds::tells(
            log + seq![event::state_event(c.conn, c.old_state)],
            opened,
            changed.push(c),
            closed,
        ),
{
    let e = event::state_event(c.conn, c.old_state);
    lemma_tells_one(log, e);
    let f = |c: StateChange| event::state_event(c.conn, c.old_state);
    assert(changed.push(c).map_values(f) =~= changed.map_values(f).push(e));
}

proof fn lemma_tells_closed(
    log: Seq<EventView>,
    opened: Seq<ConnectionView>,
    changed: Seq<StateChange>,
    closed: Seq<Closing>,
    c: Closing,
    host: Seq<char>,
)
    requires
        rounds::tells(log, opened, changed, closed),
    ensures
        rounds::tells(
            log + seq![
                event::close_event(
                    c.record,
                    clock::elapsed(c.record.t0, c.now),
                    host,
                    c.totals,
                ),
            ],
            opened,
            changed,
            closed.push(c),
        ),
{
    let e = event::close_event(c.record, clock::elapsed(c.record.t0, c.now), host, c.totals);
    lemma_tells_one(log, e);
    assert(rounds::reports_closed(e, c));
    let log1 = log + seq![e];
    assert forall|i: int| 0 <= i < closed.push(c).len() implies rounds::reports_closed(
        #[trigger] rounds::closings(log1)[i],
        closed.push(c)[i],
    ) by {
        if i < closed.len() {
            assert(rounds::closings(log1)[i] == rounds::closings(log)[i]);
        }
    }
}

/// What a round is to report, and the pause with which it ends.
ghost struct Plan {
    opened: Seq<ConnectionView>,
    changed: Seq<StateChange>,
    gone: Seq<RecordView>,
    after: After,
}

impl Plan {
    /// Whether `log` reports, of what is gone, the first `at`.
    spec fn told(self, at: int, h: Heard, log: Seq<EventView>) -> bool {
        &&& h.clocks.len() >= at
        &&& h.totals.len() == rounds::asked(self.gone.take(at))
        &&& rounds::tells(
            log,
            self.opened,
            self.changed,
            rounds::closed_as(self.gone.take(at), h.clocks, h.totals),
        )
    }

    /// Whether `q` is the queue of what is gone.
    spec fn queues(self, q: QueueView) -> bool {
        q.records == self.gone && q.after == self.after && 0 <= q.at <= self.gone.len()
    }

    /// Whether the monitor is about to report what is next in `q`, which went `d`
    /// milliseconds after it was first seen.
    spec fn awaits_close(self, q: QueueView, d: u64, h: Heard, log: Seq<EventView>) -> bool {
        &&& self.queues(q)
        &&& q.at < self.gone.len()
        &&& self.told(q.at, h, log)
        &&& h.clocks.len() == q.at + 1
        &&& d == clock::elapsed(q.record().t0, h.clocks[q.at])
    }

    /// Whether the monitor, all else being reported, is about to report what is gone,
    /// or has done so.
    #[verifier::opaque]
    spec fn closing(self, h: Heard, m: MonitorView, a: ActionView, log: Seq<EventView>) -> bool {
        match m.phase {
            PhaseView::CloseClock { queue } => {
                &&& self.queues(queue)
                &&& queue.at < self.gone.len()
                &&& self.told(queue.at, h, log)
                &&& h.clocks.len() == queue.at
            },
            PhaseView::CloseParse { queue, duration } | PhaseView::CloseName { queue, duration } =>
            self.awaits_close(queue, duration, h, log),
            PhaseView::CloseTotals { queue, duration, .. } => self.awaits_close(
                queue,
                duration,
                h,
                log,
            ) && event::has_totals(queue.record().conn),
            PhaseView::CloseLogged { queue } => {
                &&& self.queues(queue)
                &&& self.told(queue.at, h, log)
                &&& h.clocks.len() == queue.at
            },
            PhaseView::Paused => {
                &&& self.told(self.gone.len() as int, h, log)
                &&& h.clocks.len() == self.gone.len()
                &&& a == model::pause(self.after)
            },
            _ => false,
        }
    }
}

/// Nothing of what is gone is reported, and nothing heard.
proof fn lemma_nothing_closed(plan: Plan, log: Seq<EventView>)
    requires
        rounds::tells(log, plan.opened, plan.changed, Seq::empty()),
    ensures
        plan.told(0, Heard { clocks: Seq::empty(), totals: Seq::empty() }, log),
{
    reveal(Seq::filter);
    assert(plan.gone.take(0) =~= Seq::<RecordView>::empty());
    assert(rounds::closed_as(plan.gone.take(0), Seq::empty(), Seq::empty()) =~= Seq::<
        Closing,
    >::empty());
}

/// A reading of the clock more changes nothing of what was reported.
proof fn lemma_clock_heard(plan: Plan, at: int, h: Heard, log: Seq<EventView>, now: u128)
    requires
        0 <= at <= plan.gone.len(),
        plan.told(at, h, log),
    ensures
        plan.told(at, Heard { clocks: h.clocks.push(now), ..h }, log),
{
    let g = plan.gone.take(at);
    assert(rounds::closed_as(g, h.clocks.push(now), h.totals) =~= rounds::closed_as(
        g,
        h.clocks,
        h.totals,
    ));
}

/// Picking from a part gives no more than picking from the whole.
proof fn lemma_asked_grows(gone: Seq<RecordView>, i: int, at: int)
    requires
        0 <= i <= at <= gone.len(),
    ensures
        rounds::asked(gone.take(i)) <= rounds::asked(gone.take(at)),
        i < at && event::has_totals(gone[i].conn) ==> rounds::asked(gone.take(i)) < rounds::asked(
            gone.take(at),
        ),
    decreases at - i,
{
    if i < at {
        lemma_asked_grows(gone, i + 1, at);
        seqs::lemma_filter_next(gone, i, |r: RecordView| event::has_totals(r.conn));
    }
}

proof fn lemma_close_next(
    plan: Plan,
    h: Heard,
    m: MonitorView,
    log: Seq<EventView>,
    at: int,
)
    requires
        0 <= at <= plan.gone.len(),
        plan.told(at, h, log),
        h.clocks.len() == at,
    ensures
        ({
            let (n, a) = m.close_next(QueueView { records: plan.gone, at, after: plan.after });
            &&& plan.closing(h, n, a, log + laws::events_of(a))
            &&& n.active == m.active
        }),
{
    reveal(Plan::closing);
    let (n, a) = m.close_next(QueueView { records: plan.gone, at, after: plan.after });
    lemma_tells_nothing(log, a);
}

/// The report of what is next in `q`, once its totals `t` are known.
proof fn lemma_report_close(
    plan: Plan,
    h: Heard,
    g: Heard,
    m: MonitorView,
    log: Seq<EventView>,
    q: QueueView,
    d: u64,
    host: Seq<char>,
    t: TcpDataTotals,
)
    requires
        plan.awaits_close(q, d, h, log),
        g == if event::has_totals(q.record().conn) {
            Heard { totals: h.totals.push(t), ..h }
        } else {
            h
        },
        !event::has_totals(q.record().conn) ==> t == (TcpDataTotals { tx: 0, rx: 0 }),
    ensures
        ({
            let (n, a) = m.report_close(q, d, host, t);
            &&& plan.closing(g, n, a, log + laws::events_of(a))
            &&& n.active == m.active
        }),
{
    reveal(Plan::closing);
    let at = q.at;
    let before = plan.gone.take(at);
    let now = plan.gone.take(at + 1);
    let c = Closing { record: q.record(), now: h.clocks[at], totals: t };
    let closed = rounds::closed_as(before, h.clocks, h.totals);
    lemma_tells_closed(log, plan.opened, plan.changed, closed, c, host);
    seqs::lemma_filter_next(plan.gone, at, |r: RecordView| event::has_totals(r.conn));
    let f = rounds::closed_as(now, g.clocks, g.totals);
    assert forall|i: int| 0 <= i < f.len() implies #[trigger] f[i] == closed.push(c)[i] by {
        assert(now.take(i) =~= plan.gone.take(i));
        if i < at {
            assert(before.take(i) =~= plan.gone.take(i));
            lemma_asked_grows(plan.gone, i, at);
        }
    }
    assert(f =~= closed.push(c));
}

proof fn lemma_close_host(
    plan: Plan,
    h: Heard,
    m: MonitorView,
    log: Seq<EventView>,
    q: QueueView,
    d: u64,
    host: Seq<char>,
)
    requires
        plan.awaits_close(q, d, h, log),
    ensures
        ({
            let (n, a) = m.close_host(q, d, host);
            &&& plan.closing(h, n, a, log + laws::events_of(a))
            &&& n.active == m.active
        }),
{
    reveal(Plan::closing);
    let (n, a) = m.close_host(q, d, host);
    if event::has_totals(q.record().conn) {
        lemma_tells_nothing(log, a);
    } else {
        lemma_report_close(plan, h, h, m, log, q, d, host, TcpDataTotals { tx: 0, rx: 0 });
    }
}

proof fn lemma_closing_step(
    plan: Plan,
    h: Heard,
    m: MonitorView,
    a: ActionView,
    log: Seq<EventView>,
    r: Reply,
)
    requires
        plan.closing(h, m, a, log),
        !(m.phase is Paused),
        m.awaits(r),
    ensures
        plan.closing(
            h.and(m, r),
            m.step(r).0,
            m.step(r).1,
            log + laws::events_of(m.step(r).1),
        ),
        m.step(r).0.active == m.active,
{
    reveal(Plan::closing);
    match (m.phase, r) {
        (PhaseView::CloseClock { queue }, Reply::Clock(now)) => {
            let d = clock::elapsed(queue.record().t0, now);
            lemma_clock_heard(plan, queue.at, h, log, now);
            match dns::known(m.hosts, queue.record().conn.rip) {
                Some(host) => {
                    lemma_close_host(plan, h.and(m, r), m, log, queue, d, host);
                },
                None => {
                    lemma_tells_nothing(log, m.step(r).1);
                },
            }
        },
        (PhaseView::CloseParse { queue, duration }, Reply::Parsed { address }) => {
            if dns::sought(address) is Some {
                lemma_tells_nothing(log, m.step(r).1);
            } else {
                let n = m.with_host(queue.record().conn.rip, Seq::empty());
                lemma_close_host(plan, h, n, log, queue, duration, Seq::empty());
            }
        },
        (PhaseView::CloseName { queue, duration }, Reply::Name { status, host }) => {
            let name = dns::host_name(status, host@);
            let n = m.with_host(queue.record().conn.rip, name);
            lemma_close_host(plan, h, n, log, queue, duration, name);
        },
        (
            PhaseView::CloseTotals { queue, duration, host },
            Reply::Totals { code, sent, received },
        ) => {
            let t = event::totals(code, sent, received);
            lemma_report_close(plan, h, h.and(m, r), m, log, queue, duration, host, t);
        },
        (PhaseView::CloseLogged { queue }, Reply::Done) => {
            lemma_close_next(plan, h, m, log, queue.at);
        },
        _ => {},
    }
}

/// What a round is to report that began with the open connections `a0` and the list
/// `conns` of the connections of `count` processes.
spec fn poll_plan(a0: Seq<RecordView>, conns: Seq<ConnectionView>, count: nat) -> Plan {
    Plan {
        opened: rounds::appeared(a0, conns),
        changed: rounds::changed(a0, conns),
        gone: active::stale(a0, conns),
        after: After::Polled { pids: count as usize, conns: conns.len() as usize },
    }
}

/// Where such a round stands.
#[verifier::opaque]
spec fn polling(
    a0: Seq<RecordView>,
    conns: Seq<ConnectionView>,
    count: nat,
    h: Heard,
    m: MonitorView,
    a: ActionView,
    log: Seq<EventView>,
) -> bool {
    match m.phase {
        PhaseView::Scanning { scan } => {
            &&& scan.conns == conns
            &&& scan.pids == count
            &&& 0 <= scan.at <= conns.len()
            &&& rounds::scanned(a0, conns, scan.at, m.active)
            &&& scan_told(a0, conns, scan.at, h, log)
        },
        PhaseView::OpenWall { scan }
        | PhaseView::OpenParse { scan, .. }
        | PhaseView::OpenName { scan, .. } => {
            &&& opening(a0, conns, count, m.active, scan)
            &&& scan_told(a0, conns, scan.at, h, log)
        },
        PhaseView::OpenLogged { scan, .. } | PhaseView::OpenClock { scan, .. } => {
            &&& opening(a0, conns, count, m.active, scan)
            &&& h == (Heard { clocks: Seq::empty(), totals: Seq::empty() })
            &&& rounds::tells(
                log,
                rounds::appeared(a0, conns.take(scan.at)).push(scan.conn()),
                rounds::changed(a0, conns.take(scan.at)),
                Seq::empty(),
            )
        },
        _ => {
            &&& poll_plan(a0, conns, count).closing(h, m, a, log)
            &&& rounds::follows(a0, conns, m.active)
        },
    }
}

/// Whether `log` reports what is new of the first `at` of `conns`.
spec fn scan_told(
    a0: Seq<RecordView>,
    conns: Seq<ConnectionView>,
    at: int,
    h: Heard,
    log: Seq<EventView>,
) -> bool {
    &&& h == (Heard { clocks: Seq::empty(), totals: Seq::empty() })
    &&& rounds::tells(
        log,
        rounds::appeared(a0, conns.take(at)),
        rounds::changed(a0, conns.take(at)),
        Seq::empty(),
    )
}

spec fn opening(
    a0: Seq<RecordView>,
    conns: Seq<ConnectionView>,
    count: nat,
    active: Seq<RecordView>,
    scan: ScanView,
) -> bool {
    &&& scan.conns == conns
    &&& scan.pids == count
    &&& 0 <= scan.at < conns.len()
    &&& rounds::scanned(a0, conns, scan.at, active)
    &&& !active::is_open(active, scan.conn().key())
}

/// Behind the last connection the round goes on to what is gone.
proof fn lemma_scan_over(
    a0: Seq<RecordView>,
    conns: Seq<ConnectionView>,
    count: nat,
    h: Heard,
    m: MonitorView,
    log: Seq<EventView>,
)
    requires
        active::distinct_keys(a0),
        rounds::scanned(a0, conns, conns.len() as int, m.active),
        scan_told(a0, conns, conns.len() as int, h, log),
    ensures
        ({
            let plan = poll_plan(a0, conns, count);
            let (n, a) = MonitorView {
                active: active::fresh(m.active, conns),
                ..m
            }.close_next(
                QueueView {
                    records: active::stale(m.active, conns),
                    at: 0,
                    after: plan.after,
                },
            );
            polling(a0, conns, count, h, n, a, log + laws::events_of(a))
        }),
{
    let plan = poll_plan(a0, conns, count);
    let k = MonitorView { active: active::fresh(m.active, conns), ..m };
    rounds::lemma_scan_ends(a0, conns, m.active);
    lemma_nothing_closed(plan, log);
    lemma_close_next(plan, h, k, log, 0);
    reveal(polling);
}

proof fn lemma_scan_on(
    a0: Seq<RecordView>,
    conns: Seq<ConnectionView>,
    count: nat,
    h: Heard,
    m: MonitorView,
    log: Seq<EventView>,
    at: int,
)
    requires
        active::distinct_keys(a0),
        0 <= at <= conns.len(),
        rounds::scanned(a0, conns, at, m.active),
        scan_told(a0, conns, at, h, log),
    ensures
        ({
            let (n, a) = m.scan_on(ScanView { pids: count, conns, at });
            polling(a0, conns, count, h, n, a, log + laws::events_of(a))
        }),
{
    let (n, a) = m.scan_on(ScanView { pids: count, conns, at });
    let p = active::next_news(m.active, conns, at);
    active::lemma_next_news(m.active, conns, at);
    rounds::lemma_scan_unchanged(a0, conns, at, m.active);
    if p >= conns.len() {
        lemma_scan_over(a0, conns, count, h, m, log);
    } else if active::is_open(m.active, conns[p].key()) {
        lemma_scan_change(a0, conns, count, h, m, log, p);
    } else {
        reveal(polling);
        lemma_tells_nothing(log, a);
    }
}

/// A connection that is open in another state is reported as changed.
proof fn lemma_scan_change(
    a0: Seq<RecordView>,
    conns: Seq<ConnectionView>,
    count: nat,
    h: Heard,
    m: MonitorView,
    log: Seq<EventView>,
    p: int,
)
    requires
        0 <= p < conns.len(),
        rounds::scanned(a0, conns, p, m.active),
        scan_told(a0, conns, p, h, log),
        active::is_open(m.active, conns[p].key()),
        !active::is_unchanged(m.active, conns[p]),
    ensures
        ({
            let e = event::state_event(
                conns[p],
                m.active[active::position(m.active, conns[p].key())].conn.state,
            );
            let n = MonitorView { active: active::with_state(m.active, conns[p]), ..m }.at(
                PhaseView::Scanning { scan: ScanView { pids: count, conns, at: p + 1 } },
            );
            polling(a0, conns, count, h, n, ActionView::Log(seq![e]), log + seq![e])
        }),
{
    reveal(polling);
    rounds::lemma_scan_open(a0, conns, p, m.active);
    lemma_tells_changed(
        log,
        rounds::appeared(a0, conns.take(p)),
        rounds::changed(a0, conns.take(p)),
        Seq::empty(),
        StateChange {
            conn: conns[p],
            old_state: m.active[active::position(m.active, conns[p].key())].conn.state,
        },
    );
}

proof fn lemma_report_open(
    a0: Seq<RecordView>,
    conns: Seq<ConnectionView>,
    count: nat,
    h: Heard,
    m: MonitorView,
    log: Seq<EventView>,
    scan: ScanView,
    wall: Seq<char>,
    host: Seq<char>,
)
    requires
        opening(a0, conns, count, m.active, scan),
        scan_told(a0, conns, scan.at, h, log),
    ensures
        ({
            let (n, a) = m.report_open(scan, wall, host);
            polling(a0, conns, count, h, n, a, log + laws::events_of(a))
        }),
{
    reveal(polling);
    lemma_tells_open(
        log,
        rounds::appeared(a0, conns.take(scan.at)),
        rounds::changed(a0, conns.take(scan.at)),
        Seq::empty(),
        scan.conn(),
        host,
    );
}

proof fn lemma_polling_step(
    a0: Seq<RecordView>,
    conns: Seq<ConnectionView>,
    count: nat,
    h: Heard,
    m: MonitorView,
    a: ActionView,
    log: Seq<EventView>,
    r: Reply,
)
    requires
        active::distinct_keys(a0),
        polling(a0, conns, count, h, m, a, log),
        !(m.phase is Paused),
        m.awaits(r),
    ensures
        polling(
            a0,
            conns,
            count,
            h.and(m, r),
            m.step(r).0,
            m.step(r).1,
            log + laws::events_of(m.step(r).1),
        ),
{
    reveal(polling);
    match (m.phase, r) {
        (PhaseView::Scanning { scan }, Reply::Done) => {
            lemma_scan_on(a0, conns, count, h, m, log, scan.at);
        },
        (PhaseView::OpenWall { scan }, Reply::Wall(t)) => {
            match dns::known(m.hosts, scan.conn().rip) {
                Some(host) => {
                    let wall = clock::timestamp(t);
                    lemma_report_open(a0, conns, count, h, m, log, scan, wall, host);
                },
                None => {
                    lemma_tells_nothing(log, m.step(r).1);
                },
            }
        },
        (PhaseView::OpenParse { scan, wall }, Reply::Parsed { address }) => {
            if dns::sought(address) is Some {
                lemma_tells_nothing(log, m.step(r).1);
            } else {
                let k = m.with_host(scan.conn().rip, Seq::empty());
                lemma_report_open(a0, conns, count, h, k, log, scan, wall, Seq::empty());
            }
        },
        (PhaseView::OpenName { scan, wall }, Reply::Name { status, host }) => {
            let name = dns::host_name(status, host@);
            let k = m.with_host(scan.conn().rip, name);
            lemma_report_open(a0, conns, count, h, k, log, scan, wall, name);
        },
        (PhaseView::OpenLogged { scan, wall }, Reply::Done) => {
            lemma_tells_nothing(log, m.step(r).1);
        },
        (PhaseView::OpenClock { scan, wall }, Reply::Clock(t0)) => {
            let rec = RecordView { conn: scan.conn(), t0, t0_wall: wall };
            rounds::lemma_scan_new(a0, conns, scan.at, m.active, rec);
            let k = MonitorView { active: m.active.push(rec), ..m };
            lemma_scan_on(a0, conns, count, h, k, log, scan.at + 1);
        },
        _ => {
            lemma_closing_step(poll_plan(a0, conns, count), h, m, a, log, r);
            reveal(Plan::closing);
        },
    }
}

/// The connections that the answer to a request for notations completes.
pub open spec fn listing(m: MonitorView, rs: Seq<Reply>) -> Seq<ConnectionView> {
    match (m.phase, rs[0]) {
        (PhaseView::Naming { rows, .. }, Reply::Hosts(hosts)) => tables::connection_views(
            rows,
            hosts@,
        ),
        _ => Seq::empty(),
    }
}

proof fn lemma_shorter(m: MonitorView, rs: Seq<Reply>)
    requires
        rs.len() > 1,
        m.asked_for(rs),
        forall|i: int| 0 < i < rs.len() ==> !(#[trigger] m.run(rs.take(i)).phase is Paused),
    ensures
        m.asked_for(rs.drop_last()),
        rs.drop_last()[0] == rs[0],
        forall|i: int|
            0 < i < rs.drop_last().len() ==> !(#[trigger] m.run(
                rs.drop_last().take(i),
            ).phase is Paused),
        !(m.run(rs.drop_last()).phase is Paused),
        m.run(rs.drop_last()).awaits(rs.last()),
{
    let d = rs.drop_last();
    assert forall|i: int| 0 < i < d.len() implies !(#[trigger] m.run(d.take(i)).phase is Paused) by {
        assert(d.take(i) =~= rs.take(i));
    }
    assert(d =~= rs.take(rs.len() - 1));
}

proof fn lemma_no_events()
    ensures
        rounds::tells(Seq::empty(), Seq::empty(), Seq::empty(), Seq::empty()),
{
    reveal(Seq::filter);
    let f = |c: StateChange| event::state_event(c.conn, c.old_state);
    assert(Seq::<StateChange>::empty().map_values(f) =~= Seq::<EventView>::empty());
}

proof fn lemma_first(m: MonitorView, rs: Seq<Reply>)
    requires
        rs.len() == 1,
        m.asked_for(rs),
    ensures
        m.awaits(rs[0]),
        m.run(rs) == m.step(rs[0]).0,
        m.last_action(rs) == m.step(rs[0]).1,
        m.log(rs) == Seq::<EventView>::empty() + laws::events_of(m.step(rs[0]).1),
        m.heard(rs) == (Heard { clocks: Seq::empty(), totals: Seq::empty() }).and(m, rs[0]),
{
    let d = rs.drop_last();
    assert(d =~= Seq::<Reply>::empty());
    assert(m.run(d) == m);
    assert(m.log(d) == Seq::<EventView>::empty());
    assert(m.heard(d) == (Heard { clocks: Seq::empty(), totals: Seq::empty() }));
}

proof fn lemma_run_polling(m: MonitorView, rs: Seq<Reply>, count: nat)
    requires
        active::distinct_keys(m.active),
        m.phase matches PhaseView::Naming { count: c, .. } && c == count,
        rs.len() > 0,
        m.asked_for(rs),
        forall|i: int| 0 < i < rs.len() ==> !(#[trigger] m.run(rs.take(i)).phase is Paused),
    ensures
        polling(
            m.active,
            listing(m, rs),
            count,
            m.heard(rs),
            m.run(rs),
            m.last_action(rs),
            m.log(rs),
        ),
    decreases rs.len(),
{
    let d = rs.drop_last();
    let conns = listing(m, rs);
    if rs.len() == 1 {
        lemma_first(m, rs);
        rounds::lemma_scan_begins(m.active, conns);
        lemma_no_events();
        lemma_scan_on(m.active, conns, count, m.heard(rs), m, Seq::empty(), 0);
        assert(m.step(rs[0]) == m.scan_on(ScanView { pids: count, conns, at: 0 }));
    } else {
        lemma_shorter(m, rs);
        lemma_run_polling(m, d, count);
        lemma_polling_step(
            m.active,
            conns,
            count,
            m.heard(d),
            m.run(d),
            m.last_action(d),
            m.log(d),
            rs.last(),
        );
    }
}

/// A round with watched processes reports the difference: as opened exactly what is
/// listed and was not open, as changed exactly what was seen before in another state,
/// and as closed or failed exactly what was open and is not listed, each with the
/// time from its first sight to the reading of the clock for it, and with the bytes
/// that the system answered for it, none where it was not asked. Then exactly what is
/// listed is open, in the state in which it is listed, and what was open before keeps
/// all else. The round ends with a pause of a tenth of a second that tells the
/// numbers.
pub proof fn law_poll_reports_the_difference(m: MonitorView, rs: Seq<Reply>)
    requires
        m.wf(),
        m.phase is Naming,
        m.reaches_pause(rs),
    ensures
        rounds::tells(
            m.log(rs),
            rounds::appeared(m.active, listing(m, rs)),
            rounds::changed(m.active, listing(m, rs)),
            rounds::closed_as(
                active::stale(m.active, listing(m, rs)),
                m.heard(rs).clocks,
                m.heard(rs).totals,
            ),
        ),
        m.heard(rs).clocks.len() == active::stale(m.active, listing(m, rs)).len(),
        m.heard(rs).totals.len() == rounds::asked(active::stale(m.active, listing(m, rs))),
        rounds::follows(m.active, listing(m, rs), m.run(rs).active),
        m.last_action(rs) == model::pause(
            After::Polled {
                pids: m.phase->count as usize,
                conns: listing(m, rs).len() as usize,
            },
        ),
{
    reveal(polling);
    reveal(Plan::closing);
    lemma_run_polling(m, rs, m.phase->count);
    assert(rs.take(rs.len() as int) =~= rs);
    let gone = active::stale(m.active, listing(m, rs));
    assert(gone.take(gone.len() as int) =~= gone);
}

/// The plan of a round without watched processes.
spec fn wait_plan(a0: Seq<RecordView>) -> Plan {
    Plan { opened: Seq::empty(), changed: Seq::empty(), gone: a0, after: After::Waiting }
}

proof fn lemma_run_waiting(m: MonitorView, rs: Seq<Reply>)
    requires
        m.phase matches PhaseView::Changed { pids } && pids.len() == 0,
        rs.len() > 0,
        m.asked_for(rs),
        forall|i: int| 0 < i < rs.len() ==> !(#[trigger] m.run(rs.take(i)).phase is Paused),
    ensures
        wait_plan(m.active).closing(m.heard(rs), m.run(rs), m.last_action(rs), m.log(rs)),
        m.run(rs).active.len() == 0,
    decreases rs.len(),
{
    let d = rs.drop_last();
    let plan = wait_plan(m.active);
    if rs.len() == 1 {
        let k = MonitorView { active: Seq::empty(), ..m };
        lemma_first(m, rs);
        lemma_no_events();
        lemma_nothing_closed(plan, Seq::empty());
        lemma_close_next(plan, m.heard(rs), k, Seq::empty(), 0);
        assert(m.step(rs[0]) == k.close_next(
            QueueView { records: m.active, at: 0, after: After::Waiting },
        ));
    } else {
        lemma_shorter(m, rs);
        lemma_run_waiting(m, d);
        lemma_closing_step(plan, m.heard(d), m.run(d), m.last_action(d), m.log(d), rs.last());
    }
}

/// A round without watched processes reports every open connection as closed or
/// failed, with its time and its bytes, and nothing else; it leaves nothing open, and
/// ends with a pause of half a second that tells that the monitor waits.
pub proof fn law_wait_closes_all(m: MonitorView, rs: Seq<Reply>)
    requires
        m.phase matches PhaseView::Changed { pids } && pids.len() == 0,
        m.reaches_pause(rs),
    ensures
        rounds::tells(
            m.log(rs),
            Seq::empty(),
            Seq::empty(),
            rounds::closed_as(m.active, m.heard(rs).clocks, m.heard(rs).totals),
        ),
        m.heard(rs).clocks.len() == m.active.len(),
        m.heard(rs).totals.len() == rounds::asked(m.active),
        m.run(rs).active.len() == 0,
        m.last_action(rs) == model::pause(After::Waiting),
{
    reveal(Plan::closing);
    lemma_run_waiting(m, rs);
    assert(rs.take(rs.len() as int) =~= rs);
    assert(m.active.take(m.active.len() as int) =~= m.active);
}

/// A connection is reported as failed exactly if it was last seen in `SYN_SENT`;
/// otherwise it is reported as closed. Either way the report tells when it was first
/// seen, how long it lasted and what it carried.
pub proof fn law_failed_iff_syn_sent(e: EventView, c: Closing)
    requires
        rounds::reports_closed(e, c),
    ensures
        e is Closed,
        e->failed <==> c.record.conn.state == net::MIB_TCP_STATE_SYN_SENT,
        e->Closed_proto == c.record.conn.proto,
        e->Closed_local == c.record.conn.local(),
        e->Closed_remote == c.record.conn.remote(),
        e->opened == c.record.t0_wall,
        e->duration_ms == clock::elapsed(c.record.t0, c.now),
        e->bytes_sent == c.totals.tx,
        e->bytes_recv == c.totals.rx,
{
}

} // verus!
