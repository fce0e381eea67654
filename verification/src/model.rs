//! The monitor as a state machine: what it asks of its surroundings, what it is
//! told, and how it goes on.
//!
//! One round lists the processes, reads the tables, reports what appeared, changed
//! or went since the last round, and pauses. Everything outside — clocks, tables,
//! name lookups, logs — is an [`Action`] that the caller performs and answers with a
//! [`Reply`].

use vstd::prelude::*;
use crate::active;
use crate::clock;
use crate::clock::LocalTime;
use crate::connection::ConnectionView;
use crate::dns;
use crate::dns::Address;
use crate::event;
use crate::event::{Event, EventView, RecordView, TcpDataTotals, TotalsQuery};
use crate::process;
use crate::process::ProcessEntry;
use crate::sessions::{SessionChange, SessionsView};
use crate::tables;
use crate::tables::{RowsView, Tables};
use crate::text;

verus! {

/// What the caller is to do next.
pub enum Action {
    /// Write these events to the logs. Answer: `Done`.
    Log(Vec<Event>),
    /// Read the local time. Answer: `Wall`.
    ReadWallClock,
    /// List the running processes. Answer: `Processes`.
    ListProcesses,
    /// Read the four tables. Answer: `Tables`.
    ReadTables,
    /// Write down these IPv6 addresses. Answer: `Hosts`, a buffer for each.
    FormatHosts(Vec<u128>),
    /// Read the monotonic clock, in nanoseconds. Answer: `Clock`.
    ReadClock,
    /// Parse this wide text as an IPv4 or an IPv6 address. Answer: `Parsed`.
    ParseAddress(Vec<u16>),
    /// Look up the name of this address. Answer: `Name`.
    LookupName(Address),
    /// Query the bytes that this connection carried. Answer: `Totals`.
    QueryTotals(TotalsQuery),
    /// Show this status line and wait so many milliseconds. Answer: `Done`.
    Pause { status: String, millis: u64 },
}

/// The contents of an [`Action`].
pub ghost enum ActionView {
    Log(Seq<EventView>),
    ReadWallClock,
    ListProcesses,
    ReadTables,
    FormatHosts(Seq<u128>),
    ReadClock,
    ParseAddress(Seq<u16>),
    LookupName(Address),
    QueryTotals(TotalsQuery),
    Pause { status: Seq<char>, millis: u64 },
}

/// The contents of a list of events.
pub open spec fn event_views(s: Seq<Event>) -> Seq<EventView> {
    s.map_values(|e: Event| e@)
}

impl View for Action {
    type V = ActionView;

    open spec fn view(&self) -> ActionView {
        match self {
            Action::Log(events) => ActionView::Log(event_views(events@)),
            Action::ReadWallClock => ActionView::ReadWallClock,
            Action::ListProcesses => ActionView::ListProcesses,
            Action::ReadTables => ActionView::ReadTables,
            Action::FormatHosts(addresses) => ActionView::FormatHosts(addresses@),
            Action::ReadClock => ActionView::ReadClock,
            Action::ParseAddress(wide) => ActionView::ParseAddress(wide@),
            Action::LookupName(addr) => ActionView::LookupName(*addr),
            Action::QueryTotals(q) => ActionView::QueryTotals(*q),
            Action::Pause { status, millis } => ActionView::Pause {
                status: status@,
                millis: *millis,
            },
        }
    }
}

/// What came of an [`Action`].
pub enum Reply {
    Done,
    Wall(LocalTime),
    Processes(Vec<ProcessEntry>),
    Tables(Tables),
    Hosts(Vec<Vec<u8>>),
    Clock(u128),
    /// What the text was found to be, if it is an address.
    Parsed { address: Option<Address> },
    Name { status: i32, host: Vec<u8> },
    Totals { code: u32, sent: u64, received: u64 },
}

/// A pass over the connections of this round: how many processes they belong to and
/// which is next.
#[verifier::ext_equal]
pub ghost struct ScanView {
    pub pids: nat,
    pub conns: Seq<ConnectionView>,
    pub at: int,
}

/// What to tell once all gone connections are reported.
#[derive(Clone, Copy)]
pub enum After {
    /// No watched process is running.
    Waiting,
    /// So many processes have so many connections.
    Polled { pids: usize, conns: usize },
}

/// The connections of which to report that they are gone, and which is next.
#[verifier::ext_equal]
pub ghost struct QueueView {
    pub records: Seq<RecordView>,
    pub at: int,
    pub after: After,
}

/// Where the monitor stands in its round: which answer it waits for, and what for.
pub ghost enum PhaseView {
    Starting,
    Started,
    Listing,
    Changed { pids: Seq<u32> },
    Reading { pids: Seq<u32> },
    Naming { count: nat, rows: RowsView },
    Scanning { scan: ScanView },
    OpenWall { scan: ScanView },
    OpenParse { scan: ScanView, wall: Seq<char> },
    OpenName { scan: ScanView, wall: Seq<char> },
    OpenLogged { scan: ScanView, wall: Seq<char> },
    OpenClock { scan: ScanView, wall: Seq<char> },
    CloseClock { queue: QueueView },
    CloseParse { queue: QueueView, duration: u64 },
    CloseName { queue: QueueView, duration: u64 },
    CloseTotals { queue: QueueView, duration: u64, host: Seq<char> },
    CloseLogged { queue: QueueView },
    Paused,
}

/// The state of the monitor.
pub ghost struct MonitorView {
    pub sessions: SessionsView,
    pub hosts: Map<Seq<char>, Seq<char>>,
    pub active: Seq<RecordView>,
    pub phase: PhaseView,
}

impl ScanView {
    /// The connection that is next.
    pub open spec fn conn(self) -> ConnectionView {
        self.conns[self.at]
    }
}

impl QueueView {
    /// The record that is next.
    pub open spec fn record(self) -> RecordView {
        self.records[self.at]
    }
}

/// The status line and the milliseconds of the pause at the end of a round.
pub open spec fn pause(after: After) -> ActionView {
    match after {
        After::Waiting => ActionView::Pause {
            status: "\r\x1b[90mwaiting for vgc.exe...\x1b[0m    "@,
            millis: 500,
        },
        After::Polled { pids, conns } => ActionView::Pause {
            status: "\r\x1b[90mpids="@ + text::decimal(pids as nat) + "  active="@ + text::decimal(
                conns as nat,
            ) + "\x1b[0m   "@,
            millis: 100,
        },
    }
}

impl MonitorView {
    pub open spec fn at(self, phase: PhaseView) -> MonitorView {
        MonitorView { phase, ..self }
    }

    /// The state at the start of the program.
    pub open spec fn initial() -> MonitorView {
        MonitorView {
            sessions: SessionsView { by_pid: Map::empty(), counter: 0 },
            hosts: Map::empty(),
            active: Seq::empty(),
            phase: PhaseView::Starting,
        }
    }

    /// Whether `r` answers what the monitor asked for.
    pub open spec fn awaits(self, r: Reply) -> bool {
        match self.phase {
            PhaseView::Starting | PhaseView::OpenWall { .. } => r is Wall,
            PhaseView::Started
            | PhaseView::Changed { .. }
            | PhaseView::Scanning { .. }
            | PhaseView::OpenLogged { .. }
            | PhaseView::CloseLogged { .. }
            | PhaseView::Paused => r is Done,
            PhaseView::Listing => r is Processes,
            PhaseView::Reading { .. } => r is Tables,
            PhaseView::Naming { .. } => r is Hosts,
            PhaseView::OpenClock { .. } | PhaseView::CloseClock { .. } => r is Clock,
            PhaseView::OpenParse { .. } | PhaseView::CloseParse { .. } => r is Parsed,
            PhaseView::OpenName { .. } | PhaseView::CloseName { .. } => r is Name,
            PhaseView::CloseTotals { .. } => r is Totals,
        }
    }

    /// Whether the monitor can go on with `r`: it answers what was asked for, and a
    /// list of processes leaves a session number for each that needs one.
    pub open spec fn accepts(self, r: Reply) -> bool {
        self.awaits(r) && (r matches Reply::Processes(list) ==> self.sessions.has_room(
            process::pids_called("vgc.exe"@, list@),
        ))
    }

    /// What holds of the parts that all phases share.
    pub open spec fn core_wf(self) -> bool {
        self.sessions.wf() && active::distinct_keys(self.active)
    }

    /// What holds between any two steps.
    pub open spec fn wf(self) -> bool {
        self.core_wf() && self.phase_wf()
    }

    /// What holds of the phase: positions are within bounds, and a connection that is
    /// being opened is not open.
    pub open spec fn phase_wf(self) -> bool {
        match self.phase {
            PhaseView::Scanning { scan } => 0 <= scan.at <= scan.conns.len(),
            PhaseView::OpenWall { scan }
            | PhaseView::OpenParse { scan, .. }
            | PhaseView::OpenName { scan, .. }
            | PhaseView::OpenLogged { scan, .. }
            | PhaseView::OpenClock { scan, .. } => 0 <= scan.at < scan.conns.len()
                && !active::is_open(self.active, scan.conn().key()),
            PhaseView::CloseClock { queue }
            | PhaseView::CloseParse { queue, .. }
            | PhaseView::CloseName { queue, .. }
            | PhaseView::CloseTotals { queue, .. } => 0 <= queue.at < queue.records.len(),
            PhaseView::CloseLogged { queue } => 0 <= queue.at <= queue.records.len(),
            _ => true,
        }
    }

    /// Goes on with the queue `q`: to its next record, and behind the last one to
    /// the pause.
    pub open spec fn close_next(self, q: QueueView) -> (MonitorView, ActionView) {
        if q.at < q.records.len() {
            (self.at(PhaseView::CloseClock { queue: q }), ActionView::ReadClock)
        } else {
            (self.at(PhaseView::Paused), pause(q.after))
        }
    }

    /// Goes on with the pass `s`: to its next new or changed connection, and behind
    /// the last one to the connections that are gone.
    pub open spec fn scan_on(self, s: ScanView) -> (MonitorView, ActionView) {
        let at = active::next_news(self.active, s.conns, s.at);
        let c = s.conns[at];
        if at >= s.conns.len() {
            MonitorView { active: active::fresh(self.active, s.conns), ..self }.close_next(
                QueueView {
                    records: active::stale(self.active, s.conns),
                    at: 0,
                    after: After::Polled { pids: s.pids as usize, conns: s.conns.len() as usize },
                },
            )
        } else if active::is_open(self.active, c.key()) {
            (
                MonitorView { active: active::with_state(self.active, c), ..self }.at(
                    PhaseView::Scanning { scan: ScanView { at: at + 1, ..s } },
                ),
                ActionView::Log(
                    seq![
                        event::state_event(
                            c,
                            self.active[active::position(self.active, c.key())].conn.state,
                        ),
                    ],
                ),
            )
        } else {
            (
                self.at(PhaseView::OpenWall { scan: ScanView { at, ..s } }),
                ActionView::ReadWallClock,
            )
        }
    }

    /// Reports the next connection of `s` as open.
    pub open spec fn report_open(self, s: ScanView, wall: Seq<char>, host: Seq<char>) -> (
        MonitorView,
        ActionView,
    ) {
        (
            self.at(PhaseView::OpenLogged { scan: s, wall }),
            ActionView::Log(seq![event::open_event(s.conn(), host)]),
        )
    }

    /// Reports the next record of `q` as closed.
    pub open spec fn report_close(
        self,
        q: QueueView,
        duration: u64,
        host: Seq<char>,
        t: TcpDataTotals,
    ) -> (MonitorView, ActionView) {
        (
            self.at(PhaseView::CloseLogged { queue: QueueView { at: q.at + 1, ..q } }),
            ActionView::Log(seq![event::close_event(q.record(), duration, host, t)]),
        )
    }

    /// Goes on with the next record of `q` once its host is known.
    pub open spec fn close_host(self, q: QueueView, duration: u64, host: Seq<char>) -> (
        MonitorView,
        ActionView,
    ) {
        if event::has_totals(q.record().conn) {
            (
                self.at(PhaseView::CloseTotals { queue: q, duration, host }),
                ActionView::QueryTotals(event::totals_query(q.record().conn)),
            )
        } else {
            self.report_close(q, duration, host, TcpDataTotals { tx: 0, rx: 0 })
        }
    }

    /// The monitor with `host` remembered for `ip`.
    pub open spec fn with_host(self, ip: Seq<char>, host: Seq<char>) -> MonitorView {
        MonitorView { hosts: self.hosts.insert(ip, host), ..self }
    }

    /// Takes note of the running processes `list`.
    pub open spec fn step_processes(self, list: Seq<ProcessEntry>) -> (MonitorView, ActionView) {
        let pids = process::pids_called("vgc.exe"@, list);
        (
            MonitorView { sessions: self.sessions.after(pids), ..self }.at(
                PhaseView::Changed { pids },
            ),
            ActionView::Log(
                self.sessions.changes(pids).map_values(|c: SessionChange| event::session_event(c)),
            ),
        )
    }

    /// How the monitor goes on with the answer `r`.
    pub open spec fn step(self, r: Reply) -> (MonitorView, ActionView) {
        match (self.phase, r) {
            (PhaseView::Starting, Reply::Wall(t)) => (
                self.at(PhaseView::Started),
                ActionView::Log(seq![event::start_event(clock::timestamp(t))]),
            ),
            (PhaseView::Started, Reply::Done) | (PhaseView::Paused, Reply::Done) => (
                self.at(PhaseView::Listing),
                ActionView::ListProcesses,
            ),
            (PhaseView::Listing, Reply::Processes(list)) => self.step_processes(list@),
            (PhaseView::Changed { pids }, Reply::Done) => if pids.len() == 0 {
                MonitorView { active: Seq::empty(), ..self }.close_next(
                    QueueView { records: self.active, at: 0, after: After::Waiting },
                )
            } else {
                (self.at(PhaseView::Reading { pids }), ActionView::ReadTables)
            },
            (PhaseView::Reading { pids }, Reply::Tables(t)) => {
                let rows = tables::owned(t, pids);
                (
                    self.at(PhaseView::Naming { count: pids.len(), rows }),
                    ActionView::FormatHosts(tables::addresses(rows)),
                )
            },
            (PhaseView::Naming { count, rows }, Reply::Hosts(hosts)) => self.scan_on(
                ScanView { pids: count, conns: tables::connection_views(rows, hosts@), at: 0 },
            ),
            (PhaseView::Scanning { scan }, Reply::Done) => self.scan_on(scan),
            (PhaseView::OpenWall { scan }, Reply::Wall(t)) => {
                let wall = clock::timestamp(t);
                match dns::known(self.hosts, scan.conn().rip) {
                    Some(host) => self.report_open(scan, wall, host),
                    None => (
                        self.at(PhaseView::OpenParse { scan, wall }),
                        ActionView::ParseAddress(text::utf16(scan.conn().rip).push(0)),
                    ),
                }
            },
            (PhaseView::OpenParse { scan, wall }, Reply::Parsed { address }) => match dns::sought(
                address,
            ) {
                Some(a) => (
                    self.at(PhaseView::OpenName { scan, wall }),
                    ActionView::LookupName(a),
                ),
                None => self.with_host(scan.conn().rip, Seq::empty()).report_open(
                    scan,
                    wall,
                    Seq::empty(),
                ),
            },
            (PhaseView::OpenName { scan, wall }, Reply::Name { status, host }) => {
                let h = dns::host_name(status, host@);
                self.with_host(scan.conn().rip, h).report_open(scan, wall, h)
            },
            (PhaseView::OpenLogged { scan, wall }, Reply::Done) => (
                self.at(PhaseView::OpenClock { scan, wall }),
                ActionView::ReadClock,
            ),
            (PhaseView::OpenClock { scan, wall }, Reply::Clock(t0)) => MonitorView {
                active: self.active.push(RecordView { conn: scan.conn(), t0, t0_wall: wall }),
                ..self
            }.scan_on(ScanView { at: scan.at + 1, ..scan }),
            (PhaseView::CloseClock { queue }, Reply::Clock(now)) => {
                let duration = clock::elapsed(queue.record().t0, now);
                match dns::known(self.hosts, queue.record().conn.rip) {
                    Some(host) => self.close_host(queue, duration, host),
                    None => (
                        self.at(PhaseView::CloseParse { queue, duration }),
                        ActionView::ParseAddress(text::utf16(queue.record().conn.rip).push(0)),
                    ),
                }
            },
            (PhaseView::CloseParse { queue, duration }, Reply::Parsed { address }) =>
            match dns::sought(address) {
                Some(a) => (
                    self.at(PhaseView::CloseName { queue, duration }),
                    ActionView::LookupName(a),
                ),
                None => self.with_host(queue.record().conn.rip, Seq::empty()).close_host(
                    queue,
                    duration,
                    Seq::empty(),
                ),
            },
            (PhaseView::CloseName { queue, duration }, Reply::Name { status, host }) => {
                let h = dns::host_name(status, host@);
                self.with_host(queue.record().conn.rip, h).close_host(queue, duration, h)
            },
            (
                PhaseView::CloseTotals { queue, duration, host },
                Reply::Totals { code, sent, received },
            ) => self.report_close(queue, duration, host, event::totals(code, sent, received)),
            (PhaseView::CloseLogged { queue }, Reply::Done) => self.close_next(queue),
            _ => (self, ActionView::ListProcesses),
        }
    }
}

/// What the pauses at the end of a round tell, and how long they are.
pub proof fn law_pauses(pids: usize, conns: usize)
    ensures
        pause(After::Waiting) == (ActionView::Pause {
            status: "\r\x1b[90mwaiting for vgc.exe...\x1b[0m    "@,
            millis: 500,
        }),
        pause(After::Polled { pids, conns }) == (ActionView::Pause {
            status: "\r\x1b[90mpids="@ + text::decimal(pids as nat) + "  active="@
                + text::decimal(conns as nat) + "\x1b[0m   "@,
            millis: 100,
        }),
{
}

/// The contents of an action are its fields, and of a list of events those of each
/// event.
pub proof fn law_action_contents(a: Action)
    ensures
        a matches Action::Log(es) ==> a@ is Log && a@->Log_0.len() == es@.len() && forall|i: int|
            0 <= i < es@.len() ==> #[trigger] a@->Log_0[i] == es@[i]@,
        a is ReadWallClock ==> a@ is ReadWallClock,
        a is ListProcesses ==> a@ is ListProcesses,
        a is ReadTables ==> a@ is ReadTables,
        a matches Action::FormatHosts(x) ==> a@ == ActionView::FormatHosts(x@),
        a is ReadClock ==> a@ is ReadClock,
        a matches Action::ParseAddress(w) ==> a@ == ActionView::ParseAddress(w@),
        a matches Action::LookupName(x) ==> a@ == ActionView::LookupName(x),
        a matches Action::QueryTotals(q) ==> a@ == ActionView::QueryTotals(q),
        a matches Action::Pause { status, millis } ==> a@ == (ActionView::Pause {
            status: status@,
            millis,
        }),
{
}

} // verus!
