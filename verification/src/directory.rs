//! Whom the log names as the host of a remote address, held against what the lookups
//! gave.

use vstd::prelude::*;
use crate::connection;
use crate::dns;
use crate::dns::Address;
use crate::event;
use crate::histories;
use crate::laws;
use crate::model::{ActionView, MonitorView, PhaseView, Reply};
use crate::text;

verus! {

broadcast use vstd::seq_lib::group_seq_properties;

/// What an onlooker can note down of the lookups: which text was to be parsed last,
/// and what was found for each text.
pub ghost struct Directory {
    pub wide: Option<Seq<u16>>,
    pub found: Map<Seq<u16>, Seq<char>>,
}

impl Directory {
    /// With the answer `r`, upon which the monitor went on to `a`: a text that is no
    /// address, or `::`, has no host; any other has the one that its lookup gave.
    pub open spec fn and(self, r: Reply, a: ActionView) -> Directory {
        Directory {
            wide: match a {
                ActionView::ParseAddress(w) => Some(w),
                _ => self.wide,
            },
            found: match r {
                Reply::Parsed { address } => if address is None || address == Some(
                    Address::V6(0),
                ) {
                    self.found.insert(self.wide->0, Seq::empty())
                } else {
                    self.found
                },
                Reply::Name { status, host } => self.found.insert(
                    self.wide->0,
                    if status == 0 {
                        text::utf8_lossy(text::until(host@, 0))
                    } else {
                        Seq::empty()
                    },
                ),
                _ => self.found,
            },
        }
    }
}

impl MonitorView {
    /// What an onlooker has noted down of the lookups after the answers `rs`.
    pub open spec fn directory(self, rs: Seq<Reply>) -> Directory
        decreases rs.len(),
    {
        if rs.len() == 0 {
            Directory { wide: None, found: Map::empty() }
        } else {
            self.directory(rs.drop_last()).and(
                rs.last(),
                self.run(rs.drop_last()).step(rs.last()).1,
            )
        }
    }
}

/// The text of an address as it is handed out to be parsed.
pub open spec fn wide(ip: Seq<char>) -> Seq<u16> {
    text::utf16(ip).push(0)
}

proof fn lemma_wide_injective(a: Seq<char>, b: Seq<char>)
    requires
        wide(a) == wide(b),
    ensures
        a == b,
{
    text::law_utf16_round_trip(a);
    text::law_utf16_round_trip(b);
    assert(wide(a).drop_last() =~= text::utf16(a));
    assert(wide(b).drop_last() =~= text::utf16(b));
}

/// Whether the directory and the hosts that the monitor remembers agree.
spec fn listed(m: MonitorView, d: Directory) -> bool {
    &&& forall|ip: Seq<char>| #[trigger]
        m.hosts.contains_key(ip) ==> d.found.contains_key(wide(ip)) && d.found[wide(ip)]
            == m.hosts[ip]
    &&& histories::looked_up(m.phase) matches Some(ip) ==> d.wide == Some(wide(ip))
}

proof fn lemma_remembered(m: MonitorView, d: Directory, e: Directory, ip: Seq<char>, h: Seq<char>)
    requires
        listed(m, d),
        e.found == d.found.insert(wide(ip), h),
    ensures
        forall|x: Seq<char>| #[trigger]
            m.hosts.insert(ip, h).contains_key(x) ==> e.found.contains_key(wide(x))
                && e.found[wide(x)] == m.hosts.insert(ip, h)[x],
{
    assert forall|x: Seq<char>| #[trigger] m.hosts.insert(ip, h).contains_key(
        x,
    ) implies e.found.contains_key(wide(x)) && e.found[wide(x)] == m.hosts.insert(ip, h)[x] by {
        if x != ip {
            assert(m.hosts.contains_key(x));
            if wide(x) == wide(ip) {
                lemma_wide_injective(x, ip);
            }
        }
    }
}

proof fn lemma_step_listed(m: MonitorView, d: Directory, r: Reply)
    requires
        listed(m, d),
        m.awaits(r),
    ensures
        listed(m.step(r).0, d.and(r, m.step(r).1)),
{
    let e = d.and(r, m.step(r).1);
    match (m.phase, r) {
        (PhaseView::OpenParse { scan, .. }, Reply::Parsed { address }) => {
            if dns::sought(address) is None {
                lemma_remembered(m, d, e, scan.conn().rip, Seq::empty());
            }
        },
        (PhaseView::CloseParse { queue, .. }, Reply::Parsed { address }) => {
            if dns::sought(address) is None {
                lemma_remembered(m, d, e, queue.record().conn.rip, Seq::empty());
            }
        },
        (PhaseView::OpenName { scan, .. }, Reply::Name { status, host }) => {
            lemma_remembered(m, d, e, scan.conn().rip, dns::host_name(status, host@));
        },
        (PhaseView::CloseName { queue, .. }, Reply::Name { status, host }) => {
            lemma_remembered(m, d, e, queue.record().conn.rip, dns::host_name(status, host@));
        },
        _ => {},
    }
}

proof fn lemma_run_listed(rs: Seq<Reply>)
    requires
        MonitorView::initial().asked_for(rs),
    ensures
        listed(MonitorView::initial().run(rs), MonitorView::initial().directory(rs)),
    decreases rs.len(),
{
    if rs.len() > 0 {
        lemma_run_listed(rs.drop_last());
        lemma_step_listed(
            MonitorView::initial().run(rs.drop_last()),
            MonitorView::initial().directory(rs.drop_last()),
            rs.last(),
        );
    }
}

/// Whether `host` is whom the directory names for `ip`: nobody for `*` and `0.0.0.0`.
pub open spec fn names(d: Directory, ip: Seq<char>, host: Seq<char>) -> bool {
    if ip == "*"@ || ip == "0.0.0.0"@ {
        host == Seq::<char>::empty()
    } else {
        d.found.contains_key(wide(ip)) && d.found[wide(ip)] == host
    }
}

proof fn lemma_opens(m: MonitorView, r: Reply)
    requires
        m.awaits(r),
    ensures
        forall|i: int|
            0 <= i < laws::events_of(m.step(r).1).len() && #[trigger] laws::events_of(
                m.step(r).1,
            )[i] is Open ==> m.step(r).0.phase is OpenLogged,
{
}

/// Over the whole life of the monitor, every report of an opening names as the host
/// whom the lookup of the remote address gave.
pub proof fn law_openings_name_the_host(rs: Seq<Reply>, i: int, ip: Seq<char>, port: u16)
    requires
        rs.len() > 0,
        MonitorView::initial().asked_for(rs),
        0 <= i < laws::events_of(MonitorView::initial().last_action(rs)).len(),
        laws::events_of(MonitorView::initial().last_action(rs))[i] is Open,
        laws::events_of(MonitorView::initial().last_action(rs))[i]->Open_remote
            == connection::endpoint(ip, port),
    ensures
        names(
            MonitorView::initial().directory(rs),
            ip,
            laws::events_of(MonitorView::initial().last_action(rs))[i]->Open_host,
        ),
{
    let m = MonitorView::initial().run(rs);
    let e = laws::events_of(MonitorView::initial().last_action(rs))[i];
    lemma_run_listed(rs);
    histories::law_reports_tell_the_known_host(rs);
    lemma_opens(MonitorView::initial().run(rs.drop_last()), rs.last());
    let c = m.phase->OpenLogged_scan.conn();
    let host = dns::known(m.hosts, c.rip)->0;
    assert(e == event::open_event(c, host));
    event::law_open_event(c, host);
    connection::law_endpoint_injective(ip, port, c.rip, c.rport);
    dns::law_known(m.hosts, c.rip);
}

} // verus!
