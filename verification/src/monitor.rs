//! The executable monitor.

use vstd::prelude::*;
use vstd::string::*;
use crate::active;
use crate::active::Active;
use crate::clock::{elapsed_millis, timestamp_iso};
use crate::connection::ConnectionInfo;
use crate::dns::{to_look_up, DnsCache, Lookup};
use crate::event;
use crate::event::{
    log_connection_close, log_connection_open, log_session, log_start, log_state_change,
    query_totals, tcp_data_totals, wants_totals, ConnectionRecord, Event, TcpDataTotals,
};
use crate::model;
use crate::model::{Action, ActionView, After, MonitorView, PhaseView, QueueView, Reply, ScanView};
use crate::process;
use crate::process::find_pids_by_name;
use crate::sessions;
use crate::sessions::{SessionChange, Sessions};
use crate::tables;
use crate::tables::{connections, needed_addresses, owned_rows, OwnedRows};
use crate::text::decimal_string;

verus! {

broadcast use vstd::seq_lib::group_seq_properties;

/// A pass over the connections of this round.
struct Scan {
    pids: usize,
    conns: Vec<ConnectionInfo>,
    at: usize,
}

/// The connections of which to report that they are gone.
struct Queue {
    records: Vec<ConnectionRecord>,
    at: usize,
    after: After,
}

/// Where the monitor stands in its round.
enum Phase {
    Starting,
    Started,
    Listing,
    Changed { pids: Vec<u32> },
    Reading { pids: Vec<u32> },
    Naming { count: usize, rows: OwnedRows },
    Scanning { scan: Scan },
    OpenWall { scan: Scan },
    OpenParse { scan: Scan, wall: String },
    OpenName { scan: Scan, wall: String },
    OpenLogged { scan: Scan, wall: String },
    OpenClock { scan: Scan, wall: String },
    CloseClock { queue: Queue },
    CloseParse { queue: Queue, duration: u64 },
    CloseName { queue: Queue, duration: u64 },
    CloseTotals { queue: Queue, duration: u64, host: String },
    CloseLogged { queue: Queue },
    Paused,
}

/// The monitor: sessions, remembered hosts, open connections, and where it stands.
pub struct Monitor {
    sessions: Sessions,
    hosts: DnsCache,
    active: Active,
    phase: Phase,
}

impl View for Scan {
    type V = ScanView;

    closed spec fn view(&self) -> ScanView {
        ScanView { pids: self.pids as nat, conns: tables::views(self.conns@), at: self.at as int }
    }
}

impl View for Queue {
    type V = QueueView;

    closed spec fn view(&self) -> QueueView {
        QueueView {
            records: active::record_views(self.records@),
            at: self.at as int,
            after: self.after,
        }
    }
}

impl View for Phase {
    type V = PhaseView;

    closed spec fn view(&self) -> PhaseView {
        match self {
            Phase::Starting => PhaseView::Starting,
            Phase::Started => PhaseView::Started,
            Phase::Listing => PhaseView::Listing,
            Phase::Changed { pids } => PhaseView::Changed { pids: pids@ },
            Phase::Reading { pids } => PhaseView::Reading { pids: pids@ },
            Phase::Naming { count, rows } => PhaseView::Naming { count: *count as nat, rows: rows@ },
            Phase::Scanning { scan } => PhaseView::Scanning { scan: scan@ },
            Phase::OpenWall { scan } => PhaseView::OpenWall { scan: scan@ },
            Phase::OpenParse { scan, wall } => PhaseView::OpenParse { scan: scan@, wall: wall@ },
            Phase::OpenName { scan, wall } => PhaseView::OpenName { scan: scan@, wall: wall@ },
            Phase::OpenLogged { scan, wall } => PhaseView::OpenLogged { scan: scan@, wall: wall@ },
            Phase::OpenClock { scan, wall } => PhaseView::OpenClock { scan: scan@, wall: wall@ },
            Phase::CloseClock { queue } => PhaseView::CloseClock { queue: queue@ },
            Phase::CloseParse { queue, duration } => PhaseView::CloseParse {
                queue: queue@,
                duration: *duration,
            },
            Phase::CloseName { queue, duration } => PhaseView::CloseName {
                queue: queue@,
                duration: *duration,
            },
            Phase::CloseTotals { queue, duration, host } => PhaseView::CloseTotals {
                queue: queue@,
                duration: *duration,
                host: host@,
            },
            Phase::CloseLogged { queue } => PhaseView::CloseLogged { queue: queue@ },
            Phase::Paused => PhaseView::Paused,
        }
    }
}

impl View for Monitor {
    type V = MonitorView;

    closed spec fn view(&self) -> MonitorView {
        MonitorView {
            sessions: self.sessions@,
            hosts: self.hosts@,
            active: self.active@,
            phase: self.phase@,
        }
    }
}

/// An action that logs the one event `e`.
fn log_one(e: Event) -> (a: Action)
    ensures
        a@ == ActionView::Log(seq![e@]),
{
    let mut v: Vec<Event> = Vec::new();
    v.push(e);
    proof {
        assert(model::event_views(v@) =~= seq![e@]);
    }
    Action::Log(v)
}

/// The pause at the end of a round.
fn pause_action(after: After) -> (a: Action)
    ensures
        a@ == model::pause(after),
{
    match after {
        After::Waiting => Action::Pause {
            status: "\r\x1b[90mwaiting for vgc.exe...\x1b[0m    ".to_owned(),
            millis: 500,
        },
        After::Polled { pids, conns } => {
            let mut status = "\r\x1b[90mpids=".to_owned();
            status.append(decimal_string(pids as u64).as_str());
            status.append("  active=");
            status.append(decimal_string(conns as u64).as_str());
            status.append("\x1b[0m   ");
            Action::Pause { status, millis: 100 }
        },
    }
}

impl Monitor {
    /// A monitor at the start of the program, and what to do first.
    pub fn new() -> (r: (Monitor, Action))
        ensures
            r.0@ == MonitorView::initial(),
            r.0@.wf(),
            r.1@ == ActionView::ReadWallClock,
    {
        let m = Monitor {
            sessions: Sessions::new(),
            hosts: DnsCache::new(),
            active: Active::new(),
            phase: Phase::Starting,
        };
        (m, Action::ReadWallClock)
    }

    fn close_next(&mut self, queue: Queue) -> (a: Action)
        requires
            old(self)@.core_wf(),
            queue.at <= queue.records@.len(),
        ensures
            (final(self)@, a@) == old(self)@.close_next(queue@),
            final(self)@.wf(),
    {
        if queue.at < queue.records.len() {
            self.phase = Phase::CloseClock { queue };
            Action::ReadClock
        } else {
            let after = queue.after;
            self.phase = Phase::Paused;
            pause_action(after)
        }
    }

    fn scan_on(&mut self, scan: Scan) -> (a: Action)
        requires
            old(self)@.core_wf(),
            scan.at <= scan.conns@.len(),
        ensures
            (final(self)@, a@) == old(self)@.scan_on(scan@),
            final(self)@.wf(),
    {
        let at: usize = self.active.first_news(&scan.conns, scan.at);
        let ghost cv = tables::views(scan.conns@);
        if at >= scan.conns.len() {
            let records = self.active.take_stale(&scan.conns);
            let after = After::Polled { pids: scan.pids, conns: scan.conns.len() };
            return self.close_next(Queue { records, at: 0, after });
        }
        proof {
            assert(cv[at as int] == scan.conns@[at as int]@);
        }
        match self.active.last_state(&scan.conns[at]) {
            Some(old_state) => {
                self.active.set_state(&scan.conns[at]);
                let e = log_state_change(&scan.conns[at], old_state);
                self.phase = Phase::Scanning {
                    scan: Scan { pids: scan.pids, conns: scan.conns, at: at + 1 },
                };
                log_one(e)
            },
            None => {
                self.phase = Phase::OpenWall {
                    scan: Scan { pids: scan.pids, conns: scan.conns, at },
                };
                Action::ReadWallClock
            },
        }
    }

    fn report_open(&mut self, scan: Scan, wall: String, host: String) -> (a: Action)
        requires
            old(self)@.core_wf(),
            scan.at < scan.conns.len(),
            !active::is_open(old(self)@.active, scan@.conn().key()),
        ensures
            (final(self)@, a@) == old(self)@.report_open(scan@, wall@, host@),
            final(self)@.wf(),
    {
        proof {
            assert(scan@.conn() == scan.conns@[scan.at as int]@);
        }
        let e = log_connection_open(&scan.conns[scan.at], host);
        self.phase = Phase::OpenLogged { scan, wall };
        log_one(e)
    }

    fn report_close(&mut self, queue: Queue, duration: u64, host: String, t: TcpDataTotals) -> (a:
        Action)
        requires
            old(self)@.core_wf(),
            queue.at < queue.records.len(),
        ensures
            (final(self)@, a@) == old(self)@.report_close(queue@, duration, host@, t),
            final(self)@.wf(),
    {
        proof {
            assert(queue@.record() == queue.records@[queue.at as int]@);
        }
        let e = log_connection_close(&queue.records[queue.at], duration, host, t);
        self.phase = Phase::CloseLogged {
            queue: Queue { records: queue.records, at: queue.at + 1, after: queue.after },
        };
        log_one(e)
    }

    fn close_host(&mut self, queue: Queue, duration: u64, host: String) -> (a: Action)
        requires
            old(self)@.core_wf(),
            queue.at < queue.records.len(),
        ensures
            (final(self)@, a@) == old(self)@.close_host(queue@, duration, host@),
            final(self)@.wf(),
    {
        proof {
            assert(queue@.record() == queue.records@[queue.at as int]@);
        }
        let c = &queue.records[queue.at].conn;
        if wants_totals(c) {
            let q = query_totals(c);
            self.phase = Phase::CloseTotals { queue, duration, host };
            Action::QueryTotals(q)
        } else {
            self.report_close(queue, duration, host, TcpDataTotals::default())
        }
    }

    /// Whether the monitor can go on with `reply`.
    pub fn accepts(&self, reply: &Reply) -> (b: bool)
        ensures
            b == self@.accepts(*reply),
    {
        match (&self.phase, reply) {
            (Phase::Starting, Reply::Wall(_)) => true,
            (Phase::OpenWall { .. }, Reply::Wall(_)) => true,
            (Phase::Started, Reply::Done) => true,
            (Phase::Changed { .. }, Reply::Done) => true,
            (Phase::Scanning { .. }, Reply::Done) => true,
            (Phase::OpenLogged { .. }, Reply::Done) => true,
            (Phase::CloseLogged { .. }, Reply::Done) => true,
            (Phase::Paused, Reply::Done) => true,
            (Phase::Listing, Reply::Processes(list)) => {
                let pids = find_pids_by_name("vgc.exe", list);
                self.sessions.has_room(&pids)
            },
            (Phase::Reading { .. }, Reply::Tables(_)) => true,
            (Phase::Naming { .. }, Reply::Hosts(_)) => true,
            (Phase::OpenClock { .. }, Reply::Clock(_)) => true,
            (Phase::CloseClock { .. }, Reply::Clock(_)) => true,
            (Phase::OpenParse { .. }, Reply::Parsed { .. }) => true,
            (Phase::CloseParse { .. }, Reply::Parsed { .. }) => true,
            (Phase::OpenName { .. }, Reply::Name { .. }) => true,
            (Phase::CloseName { .. }, Reply::Name { .. }) => true,
            (Phase::CloseTotals { .. }, Reply::Totals { .. }) => true,
            _ => false,
        }
    }

    fn observe_processes(&mut self, list: &Vec<process::ProcessEntry>) -> (a: Action)
        requires
            old(self)@.core_wf(),
            old(self)@.sessions.has_room(process::pids_called("vgc.exe"@, list@)),
        ensures
            (final(self)@, a@) == old(self)@.at(PhaseView::Listing).step_processes(list@),
            final(self)@.wf(),
    {
        let ghost v = self.sessions@;
        let pids = find_pids_by_name("vgc.exe", list);
        proof {
            process::law_found_iff_called("vgc.exe"@, list@);
            sessions::law_changes_are_the_difference(v, pids@);
        }
        let changes = self.sessions.observe(&pids);
        let mut events: Vec<Event> = Vec::new();
        let ghost all = changes@.map_values(|c: SessionChange| event::session_event(c));
        let mut i: usize = 0;
        while i < changes.len()
            invariant
                i <= changes@.len(),
                all == changes@.map_values(|c: SessionChange| event::session_event(c)),
                forall|j: int| 0 <= j < changes@.len() ==> (#[trigger] changes@[j]).session() >= 1,
                model::event_views(events@) == all.take(i as int),
            decreases changes@.len() - i,
        {
            let e = log_session(&changes[i]);
            proof {
                lemma_event_views_push(events@, e);
                assert(all.take(i + 1) =~= all.take(i as int).push(all[i as int]));
            }
            events.push(e);
            i = i + 1;
        }
        proof {
            assert(all.take(i as int) =~= all);
        }
        self.phase = Phase::Changed { pids };
        Action::Log(events)
    }

    /// Goes on with the answer `reply` to the last action: tells what to do next.
    pub fn step(&mut self, reply: Reply) -> (a: Action)
        requires
            old(self)@.wf(),
            old(self)@.accepts(reply),
        ensures
            (final(self)@, a@) == old(self)@.step(reply),
            final(self)@.wf(),
    {
        let mut phase = Phase::Paused;
        std::mem::swap(&mut self.phase, &mut phase);
        match (phase, reply) {
            (Phase::Starting, Reply::Wall(t)) => {
                self.phase = Phase::Started;
                log_one(log_start(timestamp_iso(&t)))
            },
            (Phase::Started, Reply::Done) => {
                self.phase = Phase::Listing;
                Action::ListProcesses
            },
            (Phase::Paused, Reply::Done) => {
                self.phase = Phase::Listing;
                Action::ListProcesses
            },
            (Phase::Listing, Reply::Processes(list)) => self.observe_processes(&list),
            (Phase::Changed { pids }, Reply::Done) => if pids.len() == 0 {
                let records = self.active.drain();
                self.close_next(Queue { records, at: 0, after: After::Waiting })
            } else {
                self.phase = Phase::Reading { pids };
                Action::ReadTables
            },
            (Phase::Reading { pids }, Reply::Tables(t)) => {
                let rows = owned_rows(&t, &pids);
                let addresses = needed_addresses(&rows);
                self.phase = Phase::Naming { count: pids.len(), rows };
                Action::FormatHosts(addresses)
            },
            (Phase::Naming { count, rows }, Reply::Hosts(hosts)) => {
                let conns = connections(&rows, &hosts);
                self.scan_on(Scan { pids: count, conns, at: 0 })
            },
            (Phase::Scanning { scan }, Reply::Done) => self.scan_on(scan),
            (Phase::OpenWall { scan }, Reply::Wall(t)) => {
                let wall = timestamp_iso(&t);
                proof {
                    assert(scan@.conn() == scan.conns@[scan.at as int]@);
                }
                match self.hosts.resolve_dns(&scan.conns[scan.at].rip) {
                    Lookup::Known(host) => self.report_open(scan, wall, host),
                    Lookup::Parse(wide) => {
                        self.phase = Phase::OpenParse { scan, wall };
                        Action::ParseAddress(wide)
                    },
                }
            },
            (Phase::OpenParse { scan, wall }, Reply::Parsed { address }) => {
                proof {
                    assert(scan@.conn() == scan.conns@[scan.at as int]@);
                }
                let host = self.hosts.parsed(&scan.conns[scan.at].rip, &address);
                match (host, to_look_up(&address)) {
                    (Some(host), _) => self.report_open(scan, wall, host),
                    (None, Some(a)) => {
                        self.phase = Phase::OpenName { scan, wall };
                        Action::LookupName(a)
                    },
                    (None, None) => {
                        proof {
                            assert(false);
                        }
                        Action::ListProcesses
                    },
                }
            },
            (Phase::OpenName { scan, wall }, Reply::Name { status, host }) => {
                proof {
                    assert(scan@.conn() == scan.conns@[scan.at as int]@);
                }
                let name = self.hosts.named(&scan.conns[scan.at].rip, status, &host);
                self.report_open(scan, wall, name)
            },
            (Phase::OpenLogged { scan, wall }, Reply::Done) => {
                self.phase = Phase::OpenClock { scan, wall };
                Action::ReadClock
            },
            (Phase::OpenClock { scan, wall }, Reply::Clock(t0)) => {
                let rec = ConnectionRecord {
                    conn: scan.conns[scan.at].clone(),
                    t0,
                    t0_wall: wall,
                };
                proof {
                    assert(scan@.conn() == scan.conns@[scan.at as int]@);
                    assert(scan.at < scan.conns.len());
                }
                self.active.insert(rec);
                self.scan_on(Scan { pids: scan.pids, conns: scan.conns, at: scan.at + 1 })
            },
            (Phase::CloseClock { queue }, Reply::Clock(now)) => {
                proof {
                    assert(queue@.record() == queue.records@[queue.at as int]@);
                }
                let duration: u64 = elapsed_millis(queue.records[queue.at].t0, now);
                match self.hosts.resolve_dns(&queue.records[queue.at].conn.rip) {
                    Lookup::Known(host) => self.close_host(queue, duration, host),
                    Lookup::Parse(wide) => {
                        self.phase = Phase::CloseParse { queue, duration };
                        Action::ParseAddress(wide)
                    },
                }
            },
            (Phase::CloseParse { queue, duration }, Reply::Parsed { address }) => {
                proof {
                    assert(queue@.record() == queue.records@[queue.at as int]@);
                }
                let host = self.hosts.parsed(&queue.records[queue.at].conn.rip, &address);
                match (host, to_look_up(&address)) {
                    (Some(host), _) => self.close_host(queue, duration, host),
                    (None, Some(a)) => {
                        self.phase = Phase::CloseName { queue, duration };
                        Action::LookupName(a)
                    },
                    (None, None) => {
                        proof {
                            assert(false);
                        }
                        Action::ListProcesses
                    },
                }
            },
            (Phase::CloseName { queue, duration }, Reply::Name { status, host }) => {
                proof {
                    assert(queue@.record() == queue.records@[queue.at as int]@);
                }
                let name = self.hosts.named(&queue.records[queue.at].conn.rip, status, &host);
                self.close_host(queue, duration, name)
            },
            (
                Phase::CloseTotals { queue, duration, host },
                Reply::Totals { code, sent, received },
            ) => self.report_close(queue, duration, host, tcp_data_totals(code, sent, received)),
            (Phase::CloseLogged { queue }, Reply::Done) => self.close_next(queue),
            _ => {
                proof {
                    assert(false);
                }
                Action::ListProcesses
            },
        }
    }

    /// Goes on with `reply`, as [`Monitor::step`] does, if the monitor can; otherwise
    /// leaves it as it is.
    pub fn advance(&mut self, reply: Reply) -> (a: Option<Action>)
        requires
            old(self)@.wf(),
        ensures
            match a {
                Some(a) => old(self)@.accepts(reply) && (final(self)@, a@) == old(self)@.step(
                    reply,
                ),
                None => !old(self)@.accepts(reply) && final(self)@ == old(self)@,
            },
            final(self)@.wf(),
    {
        if self.accepts(&reply) {
            Some(self.step(reply))
        } else {
            None
        }
    }
}

proof fn lemma_event_views_push(s: Seq<Event>, e: Event)
    ensures
        model::event_views(s.push(e)) == model::event_views(s).push(e@),
{
    assert(model::event_views(s.push(e)) =~= model::event_views(s).push(e@));
}

} // verus!
