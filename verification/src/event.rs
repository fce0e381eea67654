//! What the monitor reports: the fields and the message of each log event.

use vstd::prelude::*;
use vstd::string::*;
use crate::connection::{
    endpoint_string, fmt_endpoint, fmt_ends, text_is, ConnectionInfo, ConnectionView,
};
use crate::net;
use crate::net::{
    port_service, port_to_wire, tcp_state_name, MIB_TCP_STATE_ESTAB, MIB_TCP_STATE_SYN_SENT,
    NO_ERROR,
};
use crate::sessions::SessionChange;
use crate::text;
use crate::text::decimal_string;

verus! {

broadcast use vstd::seq_lib::group_seq_properties;

/// An open connection and when it was first seen.
pub struct ConnectionRecord {
    pub conn: ConnectionInfo,
    /// The reading of the monotonic clock, in nanoseconds.
    pub t0: u128,
    /// The wall-clock timestamp.
    pub t0_wall: String,
}

/// The contents of a [`ConnectionRecord`].
pub ghost struct RecordView {
    pub conn: ConnectionView,
    pub t0: u128,
    pub t0_wall: Seq<char>,
}

impl View for ConnectionRecord {
    type V = RecordView;

    open spec fn view(&self) -> RecordView {
        RecordView { conn: self.conn@, t0: self.t0, t0_wall: self.t0_wall@ }
    }
}

/// Bytes that a connection carried.
#[derive(Clone, Copy)]
pub struct TcpDataTotals {
    /// Bytes sent.
    pub tx: u64,
    /// Bytes received.
    pub rx: u64,
}

impl Default for TcpDataTotals {
    fn default() -> (t: Self)
        ensures
            t == (TcpDataTotals { tx: 0, rx: 0 }),
    {
        TcpDataTotals { tx: 0, rx: 0 }
    }
}

/// The row by which the system is asked for the totals of an IPv4 connection.
#[derive(Clone, Copy)]
pub struct TotalsRow {
    pub state: u32,
    pub local_addr: u32,
    pub local_port: u32,
    pub remote_addr: u32,
    pub remote_port: u32,
}

/// The row by which the system is asked for the totals of an IPv6 connection. An
/// address is the number that its sixteen bytes write, the first byte having the
/// most weight.
#[derive(Clone, Copy)]
pub struct TotalsRow6 {
    pub state: u32,
    pub local_addr: u128,
    pub local_scope: u32,
    pub local_port: u32,
    pub remote_addr: u128,
    pub remote_scope: u32,
    pub remote_port: u32,
}

/// A question for the totals of a connection.
#[derive(Clone, Copy)]
pub enum TotalsQuery {
    V4(TotalsRow),
    V6(TotalsRow6),
}

/// The query for the totals of the connection `c`.
pub open spec fn totals_query(c: ConnectionView) -> TotalsQuery {
    if c.proto == "TCP6"@ {
        TotalsQuery::V6(
            TotalsRow6 {
                state: MIB_TCP_STATE_ESTAB,
                local_addr: c.lip6_raw,
                local_scope: c.lscope,
                local_port: net::port_wire(c.lport),
                remote_addr: c.rip6_raw,
                remote_scope: c.rscope,
                remote_port: net::port_wire(c.rport),
            },
        )
    } else {
        TotalsQuery::V4(
            TotalsRow {
                state: MIB_TCP_STATE_ESTAB,
                local_addr: c.lip_raw,
                local_port: net::port_wire(c.lport),
                remote_addr: c.rip_raw,
                remote_port: net::port_wire(c.rport),
            },
        )
    }
}

/// The query for the totals of a connection between two IPv4 endpoints.
pub fn query_tcp_data_totals(
    local_ip: u32,
    local_port: u16,
    remote_ip: u32,
    remote_port: u16,
) -> (q: TotalsRow)
    ensures
        q == (TotalsRow {
            state: MIB_TCP_STATE_ESTAB,
            local_addr: local_ip,
            local_port: net::port_wire(local_port),
            remote_addr: remote_ip,
            remote_port: net::port_wire(remote_port),
        }),
{
    TotalsRow {
        state: MIB_TCP_STATE_ESTAB,
        local_addr: local_ip,
        local_port: port_to_wire(local_port),
        remote_addr: remote_ip,
        remote_port: port_to_wire(remote_port),
    }
}

/// The query for the totals of the connection `c`.
pub fn query_totals(c: &ConnectionInfo) -> (q: TotalsQuery)
    ensures
        q == totals_query(c@),
{
    if text_is(&c.proto, "TCP6") {
        TotalsQuery::V6(
            TotalsRow6 {
                state: MIB_TCP_STATE_ESTAB,
                local_addr: c.lip6_raw,
                local_scope: c.lscope,
                local_port: port_to_wire(c.lport),
                remote_addr: c.rip6_raw,
                remote_scope: c.rscope,
                remote_port: port_to_wire(c.rport),
            },
        )
    } else {
        TotalsQuery::V4(query_tcp_data_totals(c.lip_raw, c.lport, c.rip_raw, c.rport))
    }
}

/// The totals that a query gave, zero where it failed.
pub open spec fn totals(status: u32, sent: u64, received: u64) -> TcpDataTotals {
    if status == NO_ERROR {
        TcpDataTotals { tx: sent, rx: received }
    } else {
        TcpDataTotals { tx: 0, rx: 0 }
    }
}

/// The totals that a query gave, zero where it failed.
pub fn tcp_data_totals(status: u32, sent: u64, received: u64) -> (t: TcpDataTotals)
    ensures
        t == totals(status, sent, received),
{
    if status == NO_ERROR {
        TcpDataTotals { tx: sent, rx: received }
    } else {
        TcpDataTotals::default()
    }
}

/// The IPv6 address by which a machine reaches itself.
pub const LOOPBACK6: u128 = 1;

/// Whether the totals of `c` are asked for: those of TCP to another machine are.
pub open spec fn has_totals(c: ConnectionView) -> bool {
    ||| c.proto == "TCP"@ && c.rip != "127.0.0.1"@ && c.rip_raw != 0
    ||| c.proto == "TCP6"@ && c.rip6_raw != LOOPBACK6 && c.rip6_raw != 0
}

/// Whether the totals of `c` are asked for.
pub fn wants_totals(c: &ConnectionInfo) -> (b: bool)
    ensures
        b == has_totals(c@),
{
    if text_is(&c.proto, "TCP") && !text_is(&c.rip, "127.0.0.1") && c.rip_raw != 0 {
        true
    } else {
        text_is(&c.proto, "TCP6") && c.rip6_raw != LOOPBACK6 && c.rip6_raw != 0
    }
}

/// One event for the logs.
pub enum Event {
    /// The monitor started.
    Start { time: String, message: String },
    /// A watched process appeared.
    ProcessStart { pid: u32, session: i32, message: String },
    /// A watched process went.
    ProcessExit { pid: u32, session: i32, message: String },
    /// A connection appeared.
    Open {
        proto: String,
        local: String,
        remote: String,
        host: String,
        service: &'static str,
        state: &'static str,
        direction: &'static str,
        message: String,
    },
    /// A connection changed its TCP state.
    State { key: String, old_state: &'static str, new_state: &'static str, message: String },
    /// A connection went; it was last seen in `SYN_SENT` if `failed`. The machine-readable
    /// log tells it by `record`, the others by `message`.
    Closed {
        failed: bool,
        proto: String,
        local: String,
        remote: String,
        host: String,
        service: &'static str,
        duration_ms: u64,
        opened: String,
        bytes_sent: u64,
        bytes_recv: u64,
        message: String,
        record: String,
    },
}

/// The contents of an [`Event`].
pub ghost enum EventView {
    Start { time: Seq<char>, message: Seq<char> },
    ProcessStart { pid: u32, session: i32, message: Seq<char> },
    ProcessExit { pid: u32, session: i32, message: Seq<char> },
    Open {
        proto: Seq<char>,
        local: Seq<char>,
        remote: Seq<char>,
        host: Seq<char>,
        service: Seq<char>,
        state: Seq<char>,
        direction: Seq<char>,
        message: Seq<char>,
    },
    State { key: Seq<char>, old_state: Seq<char>, new_state: Seq<char>, message: Seq<char> },
    Closed {
        failed: bool,
        proto: Seq<char>,
        local: Seq<char>,
        remote: Seq<char>,
        host: Seq<char>,
        service: Seq<char>,
        duration_ms: u64,
        opened: Seq<char>,
        bytes_sent: u64,
        bytes_recv: u64,
        message: Seq<char>,
        record: Seq<char>,
    },
}

impl View for Event {
    type V = EventView;

    open spec fn view(&self) -> EventView {
        match self {
            Event::Start { time, message } => EventView::Start { time: time@, message: message@ },
            Event::ProcessStart { pid, session, message } => EventView::ProcessStart {
                pid: *pid,
                session: *session,
                message: message@,
            },
            Event::ProcessExit { pid, session, message } => EventView::ProcessExit {
                pid: *pid,
                session: *session,
                message: message@,
            },
            Event::Open { proto, local, remote, host, service, state, direction, message } =>
            EventView::Open {
                proto: proto@,
                local: local@,
                remote: remote@,
                host: host@,
                service: service@,
                state: state@,
                direction: direction@,
                message: message@,
            },
            Event::State { key, old_state, new_state, message } => EventView::State {
                key: key@,
                old_state: old_state@,
                new_state: new_state@,
                message: message@,
            },
            Event::Closed {
                failed,
                proto,
                local,
                remote,
                host,
                service,
                duration_ms,
                opened,
                bytes_sent,
                bytes_recv,
                message,
                record,
            } => EventView::Closed {
                failed: *failed,
                proto: proto@,
                local: local@,
                remote: remote@,
                host: host@,
                service: service@,
                duration_ms: *duration_ms,
                opened: opened@,
                bytes_sent: *bytes_sent,
                bytes_recv: *bytes_recv,
                message: message@,
                record: record@,
            },
        }
    }
}

/// The event for the start of the monitor at `time`.
pub open spec fn start_event(time: Seq<char>) -> EventView {
    EventView::Start { time, message: "vgc-netwatch started"@ }
}

/// Reports the start of the monitor.
pub fn log_start(time: String) -> (e: Event)
    ensures
        e@ == start_event(time@),
{
    Event::Start { time, message: "vgc-netwatch started".to_owned() }
}

/// The event for a process that appeared or went.
pub open spec fn session_event(c: SessionChange) -> EventView {
    match c {
        SessionChange::Started { pid, session } => EventView::ProcessStart {
            pid,
            session,
            message: "vgc.exe started  pid="@ + text::decimal(pid as nat) + "  session="@
                + text::decimal(session as nat),
        },
        SessionChange::Exited { pid, session } => EventView::ProcessExit {
            pid,
            session,
            message: "vgc.exe exited  pid="@ + text::decimal(pid as nat) + "  session="@
                + text::decimal(session as nat),
        },
    }
}

fn session_message(head: &str, pid: u32, session: i32) -> (s: String)
    requires
        session >= 0,
    ensures
        s@ == head@ + text::decimal(pid as nat) + "  session="@ + text::decimal(session as nat),
{
    let mut s = head.to_owned();
    s.append(decimal_string(pid as u64).as_str());
    s.append("  session=");
    s.append(decimal_string(session as u64).as_str());
    s
}

/// Reports a process that appeared or went.
pub fn log_session(c: &SessionChange) -> (e: Event)
    requires
        c.session() >= 1,
    ensures
        e@ == session_event(*c),
{
    match c {
        SessionChange::Started { pid, session } => Event::ProcessStart {
            pid: *pid,
            session: *session,
            message: session_message("vgc.exe started  pid=", *pid, *session),
        },
        SessionChange::Exited { pid, session } => Event::ProcessExit {
            pid: *pid,
            session: *session,
            message: session_message("vgc.exe exited  pid=", *pid, *session),
        },
    }
}

/// The event for the connection `c` that appeared, with the host `host`.
pub open spec fn open_event(c: ConnectionView, host: Seq<char>) -> EventView {
    EventView::Open {
        proto: c.proto,
        local: c.local(),
        remote: c.remote(),
        host,
        service: net::service_name(c.rport),
        state: net::state_name(c.state),
        direction: if c.rip == "*"@ { "listen"@ } else { "outbound"@ },
        message: "OPEN    "@ + c.description(),
    }
}

/// Reports a connection that appeared.
pub fn log_connection_open(c: &ConnectionInfo, host: String) -> (e: Event)
    ensures
        e@ == open_event(c@, host@),
{
    let mut message = "OPEN    ".to_owned();
    message.append(fmt_endpoint(c).as_str());
    Event::Open {
        proto: c.proto.clone(),
        local: endpoint_string(&c.lip, c.lport),
        remote: endpoint_string(&c.rip, c.rport),
        host,
        service: port_service(c.rport),
        state: tcp_state_name(c.state),
        direction: if text_is(&c.rip, "*") {
            "listen"
        } else {
            "outbound"
        },
        message,
    }
}

/// The event for a connection, seen as `c`, that was in the state `old_state` before.
pub open spec fn state_event(c: ConnectionView, old_state: u32) -> EventView {
    EventView::State {
        key: c.key(),
        old_state: net::state_name(old_state),
        new_state: net::state_name(c.state),
        message: "state change "@ + net::state_name(old_state) + " -> "@ + net::state_name(c.state),
    }
}

/// Reports a connection that changed its TCP state.
pub fn log_state_change(c: &ConnectionInfo, old_state: u32) -> (e: Event)
    ensures
        e@ == state_event(c@, old_state),
{
    let old_name = tcp_state_name(old_state);
    let new_name = tcp_state_name(c.state);
    let mut message = "state change ".to_owned();
    message.append(old_name);
    message.append(" -> ");
    message.append(new_name);
    Event::State { key: c.key(), old_state: old_name, new_state: new_name, message }
}

/// The event for the connection `r` that went after `duration` milliseconds. It
/// failed if it was last seen in `SYN_SENT`.
pub open spec fn close_event(
    r: RecordView,
    duration: u64,
    host: Seq<char>,
    t: TcpDataTotals,
) -> EventView {
    let failed = r.conn.state == MIB_TCP_STATE_SYN_SENT;
    let head = if failed { "FAILED  "@ } else { "CLOSE   "@ };
    EventView::Closed {
        failed,
        proto: r.conn.proto,
        local: r.conn.local(),
        remote: r.conn.remote(),
        host,
        service: net::service_name(r.conn.rport),
        duration_ms: duration,
        opened: r.t0_wall,
        bytes_sent: t.tx,
        bytes_recv: t.rx,
        message: head + r.conn.description() + "  ("@ + text::decimal(duration as nat) + "ms)"@,
        record: head + r.conn.ends() + "  ("@ + text::decimal(duration as nat) + "ms)"@,
    }
}

/// Reports a connection that went.
pub fn log_connection_close(
    rec: &ConnectionRecord,
    duration: u64,
    host: String,
    es: TcpDataTotals,
) -> (e: Event)
    ensures
        e@ == close_event(rec@, duration, host@, es),
{
    let c = &rec.conn;
    let failed = c.state == MIB_TCP_STATE_SYN_SENT;
    let head = if failed {
        "FAILED  "
    } else {
        "CLOSE   "
    };
    let mut message = head.to_owned();
    message.append(fmt_endpoint(c).as_str());
    message.append("  (");
    message.append(decimal_string(duration).as_str());
    message.append("ms)");
    let mut record = head.to_owned();
    record.append(fmt_ends(c).as_str());
    record.append("  (");
    record.append(decimal_string(duration).as_str());
    record.append("ms)");
    Event::Closed {
        failed,
        proto: c.proto.clone(),
        local: endpoint_string(&c.lip, c.lport),
        remote: endpoint_string(&c.rip, c.rport),
        host,
        service: port_service(c.rport),
        duration_ms: duration,
        opened: rec.t0_wall.clone(),
        bytes_sent: es.tx,
        bytes_recv: es.rx,
        message,
        record,
    }
}

/// The report of an opening, field by field.
pub proof fn law_open_event(c: ConnectionView, host: Seq<char>)
    ensures
        open_event(c, host) is Open,
        open_event(c, host)->Open_proto == c.proto,
        open_event(c, host)->Open_local == c.lip + ":"@ + text::decimal(c.lport as nat),
        open_event(c, host)->Open_remote == c.rip + ":"@ + text::decimal(c.rport as nat),
        open_event(c, host)->Open_host == host,
        open_event(c, host)->Open_service == net::service_name(c.rport),
        open_event(c, host)->state == net::state_name(c.state),
        c.rip == "*"@ ==> open_event(c, host)->direction == "listen"@,
        c.rip != "*"@ ==> open_event(c, host)->direction == "outbound"@,
        open_event(c, host)->Open_message == "OPEN    "@ + c.description(),
{
}

/// The report of a change of state, field by field.
pub proof fn law_state_event(c: ConnectionView, old_state: u32)
    ensures
        state_event(c, old_state) is State,
        state_event(c, old_state)->key == c.proto + "|"@ + (c.lip + ":"@ + text::decimal(
            c.lport as nat,
        )) + "|"@ + (c.rip + ":"@ + text::decimal(c.rport as nat)),
        state_event(c, old_state)->old_state == net::state_name(old_state),
        state_event(c, old_state)->new_state == net::state_name(c.state),
        state_event(c, old_state)->State_message == "state change "@ + net::state_name(old_state)
            + " -> "@ + net::state_name(c.state),
{
}

/// The report of a closing, field by field: whatever state the connection was last
/// seen in, it tells whom it was with, how long it lasted and what it carried.
pub proof fn law_close_event(r: RecordView, duration: u64, host: Seq<char>, t: TcpDataTotals)
    ensures
        close_event(r, duration, host, t) is Closed,
        close_event(r, duration, host, t)->failed <==> r.conn.state == 3,
        close_event(r, duration, host, t)->Closed_proto == r.conn.proto,
        close_event(r, duration, host, t)->Closed_local == r.conn.lip + ":"@ + text::decimal(
            r.conn.lport as nat,
        ),
        close_event(r, duration, host, t)->Closed_remote == r.conn.rip + ":"@ + text::decimal(
            r.conn.rport as nat,
        ),
        close_event(r, duration, host, t)->Closed_host == host,
        close_event(r, duration, host, t)->Closed_service == net::service_name(r.conn.rport),
        close_event(r, duration, host, t)->duration_ms == duration,
        close_event(r, duration, host, t)->opened == r.t0_wall,
        close_event(r, duration, host, t)->bytes_sent == t.tx,
        close_event(r, duration, host, t)->bytes_recv == t.rx,
        r.conn.state == 3 ==> close_event(r, duration, host, t)->Closed_message == "FAILED  "@
            + r.conn.description() + "  ("@ + text::decimal(duration as nat) + "ms)"@,
        r.conn.state != 3 ==> close_event(r, duration, host, t)->Closed_message == "CLOSE   "@
            + r.conn.description() + "  ("@ + text::decimal(duration as nat) + "ms)"@,
        r.conn.state == 3 ==> close_event(r, duration, host, t)->record == "FAILED  "@
            + r.conn.ends() + "  ("@ + text::decimal(duration as nat) + "ms)"@,
        r.conn.state != 3 ==> close_event(r, duration, host, t)->record == "CLOSE   "@
            + r.conn.ends() + "  ("@ + text::decimal(duration as nat) + "ms)"@,
{
}

/// The reports of processes, field by field.
pub proof fn law_session_event(pid: u32, session: i32)
    requires
        session >= 1,
    ensures
        session_event(SessionChange::Started { pid, session }) == (EventView::ProcessStart {
            pid,
            session,
            message: "vgc.exe started  pid="@ + text::decimal(pid as nat) + "  session="@
                + text::decimal(session as nat),
        }),
        session_event(SessionChange::Exited { pid, session }) == (EventView::ProcessExit {
            pid,
            session,
            message: "vgc.exe exited  pid="@ + text::decimal(pid as nat) + "  session="@
                + text::decimal(session as nat),
        }),
{
}

/// The report of the start tells the time.
pub proof fn law_start_event(time: Seq<char>)
    ensures
        start_event(time) == (EventView::Start { time, message: "vgc-netwatch started"@ }),
{
}

/// The totals are those answered where the query succeeded, and zero where it failed.
pub proof fn law_totals(sent: u64, received: u64, code: u32)
    ensures
        totals(0, sent, received).tx == sent,
        totals(0, sent, received).rx == received,
        code != 0 ==> totals(code, sent, received).tx == 0 && totals(code, sent, received).rx == 0,
{
}

/// The contents of a record and of an event are their fields.
pub proof fn law_event_contents(r: ConnectionRecord, e: Event)
    ensures
        r@.conn == r.conn@,
        r@.t0 == r.t0,
        r@.t0_wall == r.t0_wall@,
        e matches Event::Start { time, message } ==> e@ == (EventView::Start {
            time: time@,
            message: message@,
        }),
        e matches Event::ProcessStart { pid, session, message } ==> e@
            == (EventView::ProcessStart { pid, session, message: message@ }),
        e matches Event::ProcessExit { pid, session, message } ==> e@ == (EventView::ProcessExit {
            pid,
            session,
            message: message@,
        }),
        e matches Event::Open {
            proto,
            local,
            remote,
            host,
            service,
            state,
            direction,
            message,
        } ==> e@ == (EventView::Open {
            proto: proto@,
            local: local@,
            remote: remote@,
            host: host@,
            service: service@,
            state: state@,
            direction: direction@,
            message: message@,
        }),
        e matches Event::State { key, old_state, new_state, message } ==> e@ == (EventView::State {
            key: key@,
            old_state: old_state@,
            new_state: new_state@,
            message: message@,
        }),
        e matches Event::Closed {
            failed,
            proto,
            local,
            remote,
            host,
            service,
            duration_ms,
            opened,
            bytes_sent,
            bytes_recv,
            message,
            record,
        } ==> e@ == (EventView::Closed {
            failed,
            proto: proto@,
            local: local@,
            remote: remote@,
            host: host@,
            service: service@,
            duration_ms,
            opened: opened@,
            bytes_sent,
            bytes_recv,
            message: message@,
            record: record@,
        }),
{
}

} // verus!
