//! What holds of hosts and sessions over the whole life of the monitor.

use vstd::prelude::*;
use crate::dns;
use crate::event;
use crate::event::{EventView, TcpDataTotals};
use crate::laws;
use crate::model::{ActionView, MonitorView, PhaseView, QueueView, Reply};
use crate::process;
use crate::sessions;
use crate::sessions::{SessionChange, SessionsView};

verus! {

broadcast use vstd::seq_lib::group_seq_properties;

/// The address whose host is being looked up.
pub open spec fn looked_up(p: PhaseView) -> Option<Seq<char>> {
    match p {
        PhaseView::OpenParse { scan, .. } | PhaseView::OpenName { scan, .. } => Some(
            scan.conn().rip,
        ),
        PhaseView::CloseParse { queue, .. } | PhaseView::CloseName { queue, .. } => Some(
            queue.record().conn.rip,
        ),
        _ => None,
    }
}

/// Whether `e` is the report, with the host `host`, that the record behind which `q`
/// stands is gone.
pub open spec fn tells_closed(e: EventView, q: QueueView, host: Seq<char>) -> bool {
    exists|d: u64, t: TcpDataTotals|
        e == #[trigger] event::close_event(q.records[q.at - 1], d, host, t)
}

/// What holds of the hosts between any two steps, `a` being what was asked for last.
spec fn hosts_told(m: MonitorView, a: ActionView) -> bool {
    &&& looked_up(m.phase) matches Some(ip) ==> dns::known(m.hosts, ip) is None
    &&& match m.phase {
        PhaseView::OpenLogged { scan, .. } => dns::known(m.hosts, scan.conn().rip) matches Some(host)
            && a == ActionView::Log(seq![event::open_event(scan.conn(), host)]),
        PhaseView::CloseTotals { queue, host, .. } => dns::known(
            m.hosts,
            queue.record().conn.rip,
        ) == Some(host),
        PhaseView::CloseLogged { queue } => dns::known(
            m.hosts,
            queue.records[queue.at - 1].conn.rip,
        ) matches Some(host) && a matches ActionView::Log(es) && es.len() == 1 && tells_closed(
            es[0],
            queue,
            host,
        ),
        _ => true,
    }
}

proof fn lemma_report_closed(
    m: MonitorView,
    q: QueueView,
    d: u64,
    host: Seq<char>,
    t: TcpDataTotals,
)
    requires
        dns::known(m.hosts, q.record().conn.rip) == Some(host),
    ensures
        hosts_told(m.report_close(q, d, host, t).0, m.report_close(q, d, host, t).1),
{
    let q1 = QueueView { at: q.at + 1, ..q };
    assert(tells_closed(event::close_event(q.record(), d, host, t), q1, host));
}

proof fn lemma_close_host_told(m: MonitorView, q: QueueView, d: u64, host: Seq<char>)
    requires
        dns::known(m.hosts, q.record().conn.rip) == Some(host),
    ensures
        hosts_told(m.close_host(q, d, host).0, m.close_host(q, d, host).1),
{
    if !event::has_totals(q.record().conn) {
        lemma_report_closed(m, q, d, host, TcpDataTotals { tx: 0, rx: 0 });
    }
}

proof fn lemma_step_hosts(m: MonitorView, a: ActionView, r: Reply)
    requires
        hosts_told(m, a),
        m.awaits(r),
    ensures
        hosts_told(m.step(r).0, m.step(r).1),
        m.hosts.submap_of(m.step(r).0.hosts),
{
    match (m.phase, r) {
        (PhaseView::CloseClock { queue }, Reply::Clock(now)) => {
            let d = crate::clock::elapsed(queue.record().t0, now);
            match dns::known(m.hosts, queue.record().conn.rip) {
                Some(host) => {
                    lemma_close_host_told(m, queue, d, host);
                },
                None => {},
            }
        },
        (PhaseView::CloseParse { queue, duration }, Reply::Parsed { address }) => {
            if dns::sought(address) is None {
                let n = m.with_host(queue.record().conn.rip, Seq::empty());
                lemma_close_host_told(n, queue, duration, Seq::empty());
            }
        },
        (PhaseView::CloseName { queue, duration }, Reply::Name { status, host }) => {
            let h = dns::host_name(status, host@);
            lemma_close_host_told(
                m.with_host(queue.record().conn.rip, h),
                queue,
                duration,
                h,
            );
        },
        (
            PhaseView::CloseTotals { queue, duration, host },
            Reply::Totals { code, sent, received },
        ) => {
            let t = event::totals(code, sent, received);
            lemma_report_closed(m, queue, duration, host, t);
        },
        _ => {},
    }
}

proof fn lemma_run_hosts(rs: Seq<Reply>)
    requires
        rs.len() > 0,
        MonitorView::initial().asked_for(rs),
    ensures
        hosts_told(MonitorView::initial().run(rs), MonitorView::initial().last_action(rs)),
        MonitorView::initial().run(rs.drop_last()).hosts.submap_of(
            MonitorView::initial().run(rs).hosts,
        ),
    decreases rs.len(),
{
    let d = rs.drop_last();
    let a = if d.len() > 0 {
        MonitorView::initial().last_action(d)
    } else {
        ActionView::ReadWallClock
    };
    if d.len() > 0 {
        lemma_run_hosts(d);
    }
    lemma_step_hosts(MonitorView::initial().run(d), a, rs.last());
}

/// What was found for an address is kept: later it is known with the same host.
pub proof fn law_hosts_are_kept(rs: Seq<Reply>, i: int, ip: Seq<char>)
    requires
        MonitorView::initial().asked_for(rs),
        0 <= i <= rs.len(),
        dns::known(MonitorView::initial().run(rs.take(i)).hosts, ip) is Some,
    ensures
        dns::known(MonitorView::initial().run(rs).hosts, ip) == dns::known(
            MonitorView::initial().run(rs.take(i)).hosts,
            ip,
        ),
    decreases rs.len(),
{
    if i == rs.len() {
        assert(rs.take(i) =~= rs);
    } else {
        assert(rs.drop_last().take(i) =~= rs.take(i));
        law_hosts_are_kept(rs.drop_last(), i, ip);
        lemma_run_hosts(rs);
    }
}

/// An address is looked up at most once: while it is being looked up, its host was
/// not known at any time before.
pub proof fn law_each_address_is_looked_up_once(rs: Seq<Reply>, i: int, ip: Seq<char>)
    requires
        MonitorView::initial().asked_for(rs),
        0 <= i <= rs.len(),
        looked_up(MonitorView::initial().run(rs).phase) == Some(ip),
    ensures
        dns::known(MonitorView::initial().run(rs.take(i)).hosts, ip) is None,
{
    lemma_run_hosts(rs);
    if dns::known(MonitorView::initial().run(rs.take(i)).hosts, ip) is Some {
        law_hosts_are_kept(rs, i, ip);
    }
}

/// Every report of an opening or a closing tells the host that is known, from then
/// on, for the remote address.
pub proof fn law_reports_tell_the_known_host(rs: Seq<Reply>)
    requires
        rs.len() > 0,
        MonitorView::initial().asked_for(rs),
    ensures
        MonitorView::initial().run(rs).phase matches PhaseView::OpenLogged { scan, .. }
            ==> dns::known(
            MonitorView::initial().run(rs).hosts,
            scan.conn().rip,
        ) matches Some(host) && MonitorView::initial().last_action(rs) == ActionView::Log(
            seq![event::open_event(scan.conn(), host)],
        ),
        MonitorView::initial().run(rs).phase matches PhaseView::CloseLogged { queue }
            ==> dns::known(
            MonitorView::initial().run(rs).hosts,
            queue.records[queue.at - 1].conn.rip,
        ) matches Some(host) && MonitorView::initial().last_action(rs) matches ActionView::Log(es)
            && es.len() == 1 && tells_closed(es[0], queue, host),
{
    lemma_run_hosts(rs);
}

/// How many processes a log reports as started.
pub open spec fn started(log: Seq<EventView>) -> nat
    decreases log.len(),
{
    if log.len() == 0 {
        0
    } else if log.last() is ProcessStart {
        started(log.drop_last()) + 1
    } else {
        started(log.drop_last())
    }
}

/// The processes that a log leaves running, each with its session.
pub open spec fn running(log: Seq<EventView>) -> Map<u32, i32>
    decreases log.len(),
{
    if log.len() == 0 {
        Map::empty()
    } else {
        let before = running(log.drop_last());
        match log.last() {
            EventView::ProcessStart { pid, session, .. } => before.insert(pid, session),
            EventView::ProcessExit { pid, .. } => before.remove(pid),
            _ => before,
        }
    }
}

/// Whether in a log processes start only while they are not running, with sessions
/// that count up from one, and exit only while they are running, with their session.
pub open spec fn sessions_in_order(log: Seq<EventView>) -> bool
    decreases log.len(),
{
    log.len() > 0 ==> {
        let before = running(log.drop_last());
        &&& sessions_in_order(log.drop_last())
        &&& log.last() matches EventView::ProcessStart { pid, session, .. }
            ==> !before.contains_key(pid) && session == started(log.drop_last()) + 1
        &&& log.last() matches EventView::ProcessExit { pid, session, .. } ==> before.contains_key(
            pid,
        ) && before[pid] == session
    }
}

impl MonitorView {
    /// Whether the monitor could go on with each of `rs`.
    pub open spec fn accepted(self, rs: Seq<Reply>) -> bool
        decreases rs.len(),
    {
        rs.len() > 0 ==> self.accepted(rs.drop_last()) && self.run(rs.drop_last()).accepts(
            rs.last(),
        )
    }
}

/// Whether `log` tells how the sessions came to be `v`.
spec fn sessions_told(v: SessionsView, log: Seq<EventView>) -> bool {
    &&& v.wf()
    &&& sessions_in_order(log)
    &&& started(log) == v.counter
    &&& running(log) == v.by_pid
}

proof fn lemma_others_told(log: Seq<EventView>, es: Seq<EventView>)
    requires
        forall|i: int|
            0 <= i < es.len() ==> !(#[trigger] es[i] is ProcessStart) && !(es[i] is ProcessExit),
    ensures
        started(log + es) == started(log),
        running(log + es) == running(log),
        sessions_in_order(log + es) == sessions_in_order(log),
    decreases es.len(),
{
    if es.len() == 0 {
        assert(log + es =~= log);
    } else {
        let d = es.drop_last();
        assert forall|i: int| 0 <= i < d.len() implies !(#[trigger] d[i] is ProcessStart) && !(
        d[i] is ProcessExit) by {
            assert(es[i] == d[i]);
        }
        lemma_others_told(log, d);
        assert((log + es).drop_last() =~= log + d);
        assert(es[es.len() - 1] == es.last());
    }
}

/// The reports of the changes `cs`.
spec fn reports(cs: Seq<SessionChange>) -> Seq<EventView> {
    cs.map_values(|c: SessionChange| event::session_event(c))
}

proof fn lemma_reports_next(log: Seq<EventView>, cs: Seq<SessionChange>, n: int)
    requires
        0 <= n < cs.len(),
    ensures
        (log + reports(cs.take(n + 1))).drop_last() == log + reports(cs.take(n)),
        (log + reports(cs.take(n + 1))).last() == event::session_event(cs[n]),
        (log + reports(cs.take(n + 1))).len() > 0,
{
    assert((log + reports(cs.take(n + 1))).drop_last() =~= log + reports(cs.take(n)));
}

/// The sessions once the first `n` of the processes that need one have got theirs.
spec fn partly(v: SessionsView, pids: Seq<u32>, n: int) -> Map<u32, i32> {
    let new = v.unseen(pids);
    Map::new(
        |p: u32| v.by_pid.contains_key(p) || new.take(n).contains(p),
        |p: u32|
            if v.by_pid.contains_key(p) {
                v.by_pid[p]
            } else {
                (v.counter + 1 + new.index_of(p)) as i32
            },
    )
}

proof fn lemma_starts_told(v: SessionsView, pids: Seq<u32>, log: Seq<EventView>, n: int)
    requires
        sessions_told(v, log),
        v.has_room(pids),
        pids.no_duplicates(),
        0 <= n <= v.unseen(pids).len(),
    ensures
        sessions_in_order(log + reports(v.starts(pids).take(n))),
        started(log + reports(v.starts(pids).take(n))) == v.counter + n,
        running(log + reports(v.starts(pids).take(n))) == partly(v, pids, n),
    decreases n,
{
    let new = v.unseen(pids);
    let cs = v.starts(pids);
    if n == 0 {
        assert(log + reports(cs.take(0)) =~= log);
        assert(partly(v, pids, 0) =~= v.by_pid);
    } else {
        sessions::law_changes_are_the_difference(v, pids);
        lemma_starts_told(v, pids, log, n - 1);
        lemma_reports_next(log, cs, n - 1);
        let p = new[n - 1];
        assert(new.contains(p));
        assert(!v.by_pid.contains_key(p));
        assert(!new.take(n - 1).contains(p));
        assert(new.index_of(p) == n - 1);
        assert(partly(v, pids, n) =~= partly(v, pids, n - 1).insert(
            p,
            (v.counter + n) as i32,
        )) by {
            let before = new.take(n - 1);
            assert(new.take(n) =~= before.push(p));
            assert(forall|q: u32| before.push(p).contains(q) <==> before.contains(q) || q == p);
        }
    }
}

proof fn lemma_exits_told(v: SessionsView, pids: Seq<u32>, log: Seq<EventView>, n: int)
    requires
        v.wf(),
        v.has_room(pids),
        pids.no_duplicates(),
        sessions_in_order(log),
        running(log) == partly(v, pids, v.unseen(pids).len() as int),
        0 <= n <= v.gone(pids).len(),
    ensures
        sessions_in_order(log + reports(v.exits(pids).take(n))),
        started(log + reports(v.exits(pids).take(n))) == started(log),
        running(log + reports(v.exits(pids).take(n))) == running(log).remove_keys(
            v.gone(pids).take(n).to_set(),
        ),
    decreases n,
{
    let gone = v.gone(pids);
    let cs = v.exits(pids);
    if n == 0 {
        assert(log + reports(cs.take(0)) =~= log);
        assert(running(log).remove_keys(gone.take(0).to_set()) =~= running(log));
    } else {
        sessions::law_changes_are_the_difference(v, pids);
        lemma_exits_told(v, pids, log, n - 1);
        lemma_reports_next(log, cs, n - 1);
        let p = gone[n - 1];
        assert(gone.contains(p));
        assert(v.by_pid.contains_key(p));
        assert(!gone.take(n - 1).contains(p));
        assert(gone.take(n).to_set() =~= gone.take(n - 1).to_set().insert(p)) by {
            assert(gone.take(n) =~= gone.take(n - 1).push(p));
        }
        assert(running(log).remove_keys(gone.take(n).to_set()) =~= running(log).remove_keys(
            gone.take(n - 1).to_set(),
        ).remove(p));
    }
}

proof fn lemma_changes_told(v: SessionsView, pids: Seq<u32>, log: Seq<EventView>)
    requires
        sessions_told(v, log),
        v.has_room(pids),
        pids.no_duplicates(),
    ensures
        sessions_told(v.after(pids), log + reports(v.changes(pids))),
{
    let new = v.unseen(pids);
    let gone = v.gone(pids);
    let log1 = log + reports(v.starts(pids));
    sessions::law_sessions_follow_processes(v, pids);
    sessions::law_changes_are_the_difference(v, pids);
    lemma_starts_told(v, pids, log, new.len() as int);
    assert(v.starts(pids).take(new.len() as int) =~= v.starts(pids));
    lemma_exits_told(v, pids, log1, gone.len() as int);
    assert(v.exits(pids).take(gone.len() as int) =~= v.exits(pids));
    assert(gone.take(gone.len() as int) =~= gone);
    assert(new.take(new.len() as int) =~= new);
    assert(log1 + reports(v.exits(pids)) =~= log + reports(v.changes(pids)));
    let m = partly(v, pids, new.len() as int).remove_keys(gone.to_set());
    assert(m =~= v.after(pids).by_pid) by {
        assert forall|p: u32| m.contains_key(p) <==> v.after(pids).by_pid.contains_key(p) by {
            assert(new.contains(p) <==> pids.contains(p) && !v.by_pid.contains_key(p));
            assert(gone.contains(p) <==> v.by_pid.contains_key(p) && !pids.contains(p));
            assert(gone.to_set().contains(p) <==> gone.contains(p));
        }
    }
}

/// Only a list of processes bears on the sessions.
proof fn lemma_other_steps(m: MonitorView, r: Reply)
    requires
        m.awaits(r),
        !(m.phase is Listing),
    ensures
        m.step(r).0.sessions == m.sessions,
        forall|i: int|
            0 <= i < laws::events_of(m.step(r).1).len() ==> !(#[trigger] laws::events_of(
                m.step(r).1,
            )[i] is ProcessStart) && !(laws::events_of(m.step(r).1)[i] is ProcessExit),
{
}

proof fn lemma_step_sessions(m: MonitorView, log: Seq<EventView>, r: Reply)
    requires
        sessions_told(m.sessions, log),
        m.accepts(r),
    ensures
        sessions_told(m.step(r).0.sessions, log + laws::events_of(m.step(r).1)),
{
    if m.phase is Listing {
        match r {
            Reply::Processes(list) => {
                let pids = process::pids_called("vgc.exe"@, list@);
                process::law_found_iff_called("vgc.exe"@, list@);
                lemma_changes_told(m.sessions, pids, log);
                assert(laws::events_of(m.step(r).1) =~= reports(m.sessions.changes(pids)));
            },
            _ => {},
        }
    } else {
        lemma_other_steps(m, r);
        lemma_others_told(log, laws::events_of(m.step(r).1));
    }
}

proof fn lemma_run_sessions(rs: Seq<Reply>)
    requires
        MonitorView::initial().accepted(rs),
    ensures
        sessions_told(MonitorView::initial().run(rs).sessions, MonitorView::initial().log(rs)),
    decreases rs.len(),
{
    if rs.len() == 0 {
        assert(running(Seq::empty()) =~= Map::empty());
    } else {
        let d = rs.drop_last();
        lemma_run_sessions(d);
        lemma_step_sessions(
            MonitorView::initial().run(d),
            MonitorView::initial().log(d),
            rs.last(),
        );
    }
}

/// Over the whole life of the monitor, processes are reported as started and as
/// exited in turn; the sessions of those that start count up from one, and one that
/// exits does so with its session. What the log leaves running are the sessions that
/// the monitor holds.
pub proof fn law_sessions_in_order(rs: Seq<Reply>)
    ensures
        MonitorView::initial().accepted(rs) ==> {
            &&& sessions_in_order(MonitorView::initial().log(rs))
            &&& running(MonitorView::initial().log(rs)) == MonitorView::initial().run(
                rs,
            ).sessions.by_pid
        },
{
    if MonitorView::initial().accepted(rs) {
        lemma_run_sessions(rs);
    }
}

proof fn lemma_accepted_is_asked_for(rs: Seq<Reply>)
    requires
        MonitorView::initial().accepted(rs),
    ensures
        MonitorView::initial().asked_for(rs),
    decreases rs.len(),
{
    if rs.len() > 0 {
        lemma_accepted_is_asked_for(rs.drop_last());
    }
}

/// Whatever answers the monitor could go on with, its state stays well-formed.
pub proof fn law_state_stays_well_formed(rs: Seq<Reply>)
    ensures
        MonitorView::initial().accepted(rs) ==> MonitorView::initial().run(rs).wf(),
{
    if MonitorView::initial().accepted(rs) {
        lemma_accepted_is_asked_for(rs);
        laws::law_keys_stay_distinct(rs);
        lemma_run_sessions(rs);
    }
}

} // verus!
