//! What single answers lead to.

use vstd::prelude::*;
use crate::clock;
use crate::clock::LocalTime;
use crate::connection::ConnectionView;
use crate::dns;
use crate::dns::Address;
use crate::event;
use crate::event::{EventView, RecordView, TotalsQuery};
use crate::histories;
use crate::model::{ActionView, MonitorView, PhaseView, Reply};
use crate::net;
use crate::process;
use crate::process::ProcessEntry;
use crate::sessions;
use crate::tables;
use crate::text;

verus! {

broadcast use vstd::seq_lib::group_seq_properties;

/// Whether `r` is an answer of the kind that `a` asks for.
pub open spec fn answers(a: ActionView, r: Reply) -> bool {
    match a {
        ActionView::Log(_) | ActionView::Pause { .. } => r is Done,
        ActionView::ReadWallClock => r is Wall,
        ActionView::ListProcesses => r is Processes,
        ActionView::ReadTables => r is Tables,
        ActionView::FormatHosts(_) => r is Hosts,
        ActionView::ReadClock => r is Clock,
        ActionView::ParseAddress(_) => r is Parsed,
        ActionView::LookupName(_) => r is Name,
        ActionView::QueryTotals(_) => r is Totals,
    }
}

/// The monitor awaits exactly the answers to what it asked for last.
pub proof fn law_awaits_the_answer(m: MonitorView, r: Reply, next: Reply)
    requires
        m.awaits(r),
    ensures
        m.step(r).0.awaits(next) <==> answers(m.step(r).1, next),
        MonitorView::initial().awaits(next) <==> answers(ActionView::ReadWallClock, next),
{
}

/// Every awaited answer is accepted, except a list of processes for which the numbers
/// of sessions might not suffice.
pub proof fn law_accepts_the_answer(m: MonitorView, r: Reply)
    requires
        m.awaits(r),
    ensures
        !(r is Processes) ==> m.accepts(r),
        r matches Reply::Processes(list) ==> m.sessions.counter + list@.len() <= i32::MAX
            ==> m.accepts(r),
{
    match r {
        Reply::Processes(list) => {
            let pids = process::pids_called("vgc.exe"@, list@);
            lemma_no_more_found("vgc.exe"@, list@);
            lemma_filter_shorter(pids, |p: u32| !m.sessions.by_pid.contains_key(p));
        },
        _ => {},
    }
}

proof fn lemma_no_more_found(name: Seq<char>, list: Seq<ProcessEntry>)
    ensures
        process::pids_called(name, list).len() <= list.len(),
    decreases list.len(),
{
    if list.len() > 0 {
        lemma_no_more_found(name, list.drop_last());
    }
}

proof fn lemma_filter_shorter<T>(s: Seq<T>, p: spec_fn(T) -> bool)
    ensures
        s.filter(p).len() <= s.len(),
    decreases s.len(),
{
    reveal(Seq::filter);
    if s.len() > 0 {
        lemma_filter_shorter(s.drop_last(), p);
    }
}

/// A text that is found to be an address, other than `::`, is looked up as that very
/// address, and nothing is remembered yet. Any other text has the empty host from
/// then on, and is not looked up.
pub proof fn law_addresses_are_looked_up(m: MonitorView, r: Reply, ip: Seq<char>)
    requires
        m.phase is OpenParse || m.phase is CloseParse,
        histories::looked_up(m.phase) == Some(ip),
        m.awaits(r),
    ensures
        r->address matches Some(Address::V4(n)) ==> m.step(r).1 == ActionView::LookupName(
            Address::V4(n),
        ),
        r->address matches Some(Address::V6(n)) ==> n != 0 ==> m.step(r).1
            == ActionView::LookupName(Address::V6(n)),
        m.step(r).1 is LookupName ==> m.step(r).0.hosts == m.hosts && histories::looked_up(
            m.step(r).0.phase,
        ) == Some(ip),
        r->address is None || r->address == Some(Address::V6(0)) ==> !(m.step(r).1 is LookupName) && m.step(r).0.hosts == m.hosts.insert(
            ip,
            Seq::empty(),
        ),
{
}

/// A lookup ends with what it gave being remembered for the address it was made for:
/// the text before the first NUL where it succeeded, and nothing where it failed.
pub proof fn law_lookups_are_remembered(
    m: MonitorView,
    r: Reply,
    ip: Seq<char>,
    name: Seq<u8>,
    rest: Seq<u8>,
)
    requires
        m.phase is OpenName || m.phase is CloseName,
        histories::looked_up(m.phase) == Some(ip),
        m.awaits(r),
        !name.contains(0),
        r->Name_host@ == name + seq![0u8] + rest,
    ensures
        r->Name_status == 0 ==> m.step(r).0.hosts == m.hosts.insert(ip, text::utf8_lossy(name)),
        r->Name_status != 0 ==> m.step(r).0.hosts == m.hosts.insert(ip, Seq::empty()),
{
    dns::law_host_name(name, rest, r->Name_status);
}

/// What is to be parsed is the text of the address whose host is sought, with a NUL
/// behind it.
pub proof fn law_the_address_is_parsed(m: MonitorView, r: Reply)
    requires
        m.awaits(r),
    ensures
        m.step(r).1 matches ActionView::ParseAddress(wide) ==> {
            &&& wide.len() > 0
            &&& wide.last() == 0
            &&& histories::looked_up(m.step(r).0.phase) == Some(text::utf16_lossy(wide.drop_last()))
        },
{
    match m.step(r).1 {
        ActionView::ParseAddress(wide) => {
            let ip = histories::looked_up(m.step(r).0.phase)->0;
            text::law_utf16_round_trip(ip);
            assert(wide.drop_last() =~= text::utf16(ip));
        },
        _ => {},
    }
}

/// A list of processes has the monitor watch exactly those whose executable reads, in
/// lower case, like `vgc.exe`. If there are any, it reads the tables next, picks
/// their rows, and has the addresses of those written down.
pub proof fn law_watches_by_name(m: MonitorView, rs: Seq<Reply>)
    requires
        m.phase is Listing,
        rs.len() == 3,
        m.asked_for(rs),
    ensures
        rs[0] is Processes,
        m.run(rs.take(1)).phase is Changed,
        forall|p: u32|
            #![trigger m.run(rs.take(1)).phase->Changed_pids.contains(p)]
            m.run(rs.take(1)).phase->Changed_pids.contains(p) <==> exists|i: int|
                0 <= i < rs[0]->Processes_0@.len() && (#[trigger] rs[0]->Processes_0@[i]).pid == p
                    && text::lower(
                    text::utf16_lossy(text::until(rs[0]->Processes_0@[i].exe@, 0)),
                ) == text::lower("vgc.exe"@),
        m.run(rs.take(1)).phase->Changed_pids.no_duplicates(),
        m.run(rs.take(1)).phase->Changed_pids.len() > 0 ==> {
            let pids = m.run(rs.take(1)).phase->Changed_pids;
            &&& m.last_action(rs.take(2)) == ActionView::ReadTables
            &&& rs[2] is Tables
            &&& m.run(rs).phase == (PhaseView::Naming {
                count: pids.len(),
                rows: tables::owned(rs[2]->Tables_0, pids),
            })
            &&& m.last_action(rs) == ActionView::FormatHosts(
                tables::addresses(tables::owned(rs[2]->Tables_0, pids)),
            )
            &&& m.run(rs).active == m.active
            &&& m.run(rs).hosts == m.hosts
        },
{
    let r1 = rs.take(1);
    let r2 = rs.take(2);
    assert(r1.drop_last() =~= Seq::<Reply>::empty());
    assert(r2.drop_last() =~= r1);
    assert(rs.drop_last() =~= r2);
    assert(m.asked_for(r2));
    assert(m.asked_for(r1));
    assert(m.run(r1.drop_last()) == m);
    assert(m.awaits(rs[0]));
    let list = rs[0]->Processes_0@;
    process::law_found_iff_called("vgc.exe"@, list);
    let pids = process::pids_called("vgc.exe"@, list);
    assert(m.run(r1).phase == (PhaseView::Changed { pids }));
    assert forall|p: u32| #![trigger pids.contains(p)] pids.contains(p) <==> exists|i: int|
        0 <= i < list.len() && (#[trigger] list[i]).pid == p && text::lower(
            text::utf16_lossy(text::until(list[i].exe@, 0)),
        ) == text::lower("vgc.exe"@) by {
        if pids.contains(p) {
            let i = choose|i: int|
                0 <= i < list.len() && (#[trigger] list[i]).pid == p && list[i].is_called(
                    "vgc.exe"@,
                );
            process::law_called(list[i], "vgc.exe"@);
        }
        if exists|i: int|
            0 <= i < list.len() && (#[trigger] list[i]).pid == p && text::lower(
                text::utf16_lossy(text::until(list[i].exe@, 0)),
            ) == text::lower("vgc.exe"@) {
            let i = choose|i: int|
                0 <= i < list.len() && (#[trigger] list[i]).pid == p && text::lower(
                    text::utf16_lossy(text::until(list[i].exe@, 0)),
                ) == text::lower("vgc.exe"@);
            process::law_called(list[i], "vgc.exe"@);
        }
    }
    assert(m.run(r1).awaits(rs[1]));
    if pids.len() > 0 {
        assert(m.run(r2).phase == (PhaseView::Reading { pids }));
        assert(m.run(r2).awaits(rs[2]));
    }
}

/// Whenever the monitor has taken note of a list of processes, the log leaves running
/// exactly those whose executable reads, in lower case, like `vgc.exe`.
pub proof fn law_running_are_the_watched(rs: Seq<Reply>)
    ensures
        rs.len() > 0 && rs.last() is Processes && MonitorView::initial().accepted(rs) ==> forall|
            p: u32,
        | #[trigger]
            histories::running(MonitorView::initial().log(rs)).contains_key(p) <==> exists|i: int|
                0 <= i < rs.last()->Processes_0@.len() && (
                #[trigger] rs.last()->Processes_0@[i]).pid == p && text::lower(
                    text::utf16_lossy(text::until(rs.last()->Processes_0@[i].exe@, 0)),
                ) == text::lower("vgc.exe"@),
{
    if rs.len() > 0 && rs.last() is Processes && MonitorView::initial().accepted(rs) {
        let d = rs.drop_last();
        let m = MonitorView::initial().run(d);
        let list = rs.last()->Processes_0@;
        let pids = process::pids_called("vgc.exe"@, list);
        histories::law_sessions_in_order(rs);
        histories::law_state_stays_well_formed(d);
        process::law_found_iff_called("vgc.exe"@, list);
        assert(m.accepts(rs.last()));
        assert(m.phase is Listing);
        sessions::law_sessions_follow_processes(m.sessions, pids);
        let by_pid = MonitorView::initial().run(rs).sessions.by_pid;
        assert forall|p: u32| #[trigger] by_pid.contains_key(p) <==> exists|i: int|
            0 <= i < list.len() && (#[trigger] list[i]).pid == p && text::lower(
                text::utf16_lossy(text::until(list[i].exe@, 0)),
            ) == text::lower("vgc.exe"@) by {
            assert(by_pid.contains_key(p) <==> pids.contains(p));
            if pids.contains(p) {
                let i = choose|i: int|
                    0 <= i < list.len() && (#[trigger] list[i]).pid == p && list[i].is_called(
                        "vgc.exe"@,
                    );
                process::law_called(list[i], "vgc.exe"@);
            }
            if exists|i: int|
                0 <= i < list.len() && (#[trigger] list[i]).pid == p && text::lower(
                    text::utf16_lossy(text::until(list[i].exe@, 0)),
                ) == text::lower("vgc.exe"@) {
                let i = choose|i: int|
                    0 <= i < list.len() && (#[trigger] list[i]).pid == p && text::lower(
                        text::utf16_lossy(text::until(list[i].exe@, 0)),
                    ) == text::lower("vgc.exe"@);
                process::law_called(list[i], "vgc.exe"@);
            }
        }
    }
}

proof fn lemma_query_step(m: MonitorView, r: Reply)
    requires
        m.awaits(r),
    ensures
        m.step(r).1 is QueryTotals ==> m.step(r).0.phase is CloseTotals && event::has_totals(
            m.step(r).0.phase->CloseTotals_queue.record().conn,
        ) && m.step(r).1->QueryTotals_0 == event::totals_query(
            m.step(r).0.phase->CloseTotals_queue.record().conn,
        ),
{
}

/// The bytes of a connection that is gone are asked for by its own addresses, scopes
/// and ports.
pub proof fn law_the_record_is_asked_for(m: MonitorView, r: Reply)
    requires
        m.awaits(r),
    ensures
        m.step(r).1 is QueryTotals ==> m.step(r).0.phase is CloseTotals && asks_by(
            m.step(r).1->QueryTotals_0,
            m.step(r).0.phase->CloseTotals_queue.record().conn,
        ),
{
    lemma_query_step(m, r);
    if m.step(r).1 is QueryTotals {
        lemma_asks_by(m.step(r).0.phase->CloseTotals_queue.record().conn);
    }
}

/// Whether `q` asks for the bytes of `c`: by the IPv4 addresses of an IPv4 one, by the
/// IPv6 addresses and scopes of an IPv6 one, and by its ports.
pub open spec fn asks_by(q: TotalsQuery, c: ConnectionView) -> bool {
    match q {
        TotalsQuery::V4(row) => {
            &&& c.proto == "TCP"@
            &&& row.state == 5
            &&& row.local_addr == c.lip_raw
            &&& net::wire_port(row.local_port) == c.lport
            &&& row.remote_addr == c.rip_raw
            &&& net::wire_port(row.remote_port) == c.rport
        },
        TotalsQuery::V6(row) => {
            &&& c.proto == "TCP6"@
            &&& row.state == 5
            &&& row.local_addr == c.lip6_raw
            &&& row.local_scope == c.lscope
            &&& net::wire_port(row.local_port) == c.lport
            &&& row.remote_addr == c.rip6_raw
            &&& row.remote_scope == c.rscope
            &&& net::wire_port(row.remote_port) == c.rport
        },
    }
}

proof fn lemma_asks_by(c: ConnectionView)
    requires
        event::has_totals(c),
    ensures
        asks_by(event::totals_query(c), c),
{
    net::law_port_round_trip(c.lport);
    net::law_port_round_trip(c.rport);
}

/// The monitor begins by telling that it started, and when; then, and after every
/// pause, it lists the processes.
pub proof fn law_rounds_begin(m: MonitorView, t: LocalTime)
    ensures
        MonitorView::initial().step(Reply::Wall(t)).1 == ActionView::Log(
            seq![
                EventView::Start {
                    time: clock::timestamp(t),
                    message: "vgc-netwatch started"@,
                },
            ],
        ),
        MonitorView::initial().step(Reply::Wall(t)).0.step(Reply::Done).1
            == ActionView::ListProcesses,
        m.phase is Paused ==> m.step(Reply::Done).1 == ActionView::ListProcesses && m.step(
            Reply::Done,
        ).0 == m.at(PhaseView::Listing),
        MonitorView::initial().hosts == Map::<Seq<char>, Seq<char>>::empty(),
        MonitorView::initial().active == Seq::<RecordView>::empty(),
        MonitorView::initial().sessions.counter == 0,
{
}

} // verus!
