use std::collections::HashMap;

use vgc_netwatch::clock::LocalTime;
use vgc_netwatch::dns::Address;
use vgc_netwatch::event::{Event, TotalsQuery};
use vgc_netwatch::model::{Action, Reply};
use vgc_netwatch::monitor::Monitor;
use vgc_netwatch::process::ProcessEntry;
use vgc_netwatch::tables::{TableRead, Tables};

/// What the monitor sees, and what it was seen to do.
struct World {
    processes: Vec<(u32, &'static str)>,
    /// State, local address, local port, remote address, remote port, owner.
    tcp: Vec<(u32, [u8; 4], u16, [u8; 4], u16, u32)>,
    /// Local address, local port, owner.
    udp: Vec<([u8; 4], u16, u32)>,
    /// Local address, local scope, remote address, remote scope, remote port, state, owner.
    tcp6: Vec<(u128, u32, u128, u32, u16, u32, u32)>,
    names: HashMap<u32, &'static str>,
    names6: HashMap<u128, &'static str>,
    totals: (u32, u64, u64),
    nanos: u128,
    lines: Vec<String>,
    lookups: Vec<u128>,
    parses: usize,
    queries: usize,
}

impl World {
    fn new() -> World {
        World {
            processes: vec![],
            tcp: vec![],
            udp: vec![],
            tcp6: vec![],
            names: HashMap::new(),
            names6: HashMap::new(),
            totals: (0, 4321, 18204),
            nanos: 0,
            lines: vec![],
            lookups: vec![],
            parses: 0,
            queries: 0,
        }
    }

    fn tables(&self) -> Tables {
        let mut tcp = (self.tcp.len() as u32).to_le_bytes().to_vec();
        for (state, local, lport, remote, rport, pid) in &self.tcp {
            tcp.extend_from_slice(&state.to_le_bytes());
            tcp.extend_from_slice(local);
            tcp.extend_from_slice(&(lport.to_be() as u32).to_le_bytes());
            tcp.extend_from_slice(remote);
            tcp.extend_from_slice(&(rport.to_be() as u32).to_le_bytes());
            tcp.extend_from_slice(&pid.to_le_bytes());
        }
        let mut udp = (self.udp.len() as u32).to_le_bytes().to_vec();
        for (local, lport, pid) in &self.udp {
            udp.extend_from_slice(local);
            udp.extend_from_slice(&(lport.to_be() as u32).to_le_bytes());
            udp.extend_from_slice(&pid.to_le_bytes());
        }
        let mut tcp6 = (self.tcp6.len() as u32).to_le_bytes().to_vec();
        for (local, lscope, remote, rscope, rport, state, pid) in &self.tcp6 {
            tcp6.extend_from_slice(&local.to_be_bytes());
            tcp6.extend_from_slice(&lscope.to_le_bytes());
            tcp6.extend_from_slice(&(9000u16.to_be() as u32).to_le_bytes());
            tcp6.extend_from_slice(&remote.to_be_bytes());
            tcp6.extend_from_slice(&rscope.to_le_bytes());
            tcp6.extend_from_slice(&(rport.to_be() as u32).to_le_bytes());
            tcp6.extend_from_slice(&state.to_le_bytes());
            tcp6.extend_from_slice(&pid.to_le_bytes());
        }
        Tables {
            tcp: TableRead { status: 0, buf: tcp },
            udp: TableRead { status: 0, buf: udp },
            tcp6: TableRead { status: 0, buf: tcp6 },
            udp6: TableRead { status: 50, buf: vec![1, 0, 0, 0] },
        }
    }

    fn perform(&mut self, action: &Action) -> Reply {
        match action {
            Action::Log(events) => {
                for e in events {
                    self.lines.push(line(e));
                }
                Reply::Done
            }
            Action::ReadWallClock => Reply::Wall(LocalTime {
                year: 2026,
                month: 5,
                day: 6,
                hour: 14,
                minute: 32,
                second: 3,
                milliseconds: 789,
            }),
            Action::ListProcesses => Reply::Processes(
                self.processes
                    .iter()
                    .map(|(pid, name)| ProcessEntry {
                        pid: *pid,
                        exe: name.encode_utf16().chain(std::iter::once(0)).collect(),
                    })
                    .collect(),
            ),
            Action::ReadTables => Reply::Tables(self.tables()),
            Action::FormatHosts(addresses) => Reply::Hosts(
                addresses.iter().map(|a| groups(*a).into_bytes()).collect(),
            ),
            Action::ReadClock => Reply::Clock(self.nanos),
            Action::ParseAddress(wide) => {
                self.parses += 1;
                assert_eq!(wide.last(), Some(&0));
                let s = String::from_utf16_lossy(&wide[..wide.len() - 1]);
                let parts: Vec<u8> = s.split('.').filter_map(|p| p.parse().ok()).collect();
                let address = if parts.len() == 4 {
                    Some(Address::V4(u32::from_le_bytes([parts[0], parts[1], parts[2], parts[3]])))
                } else {
                    parse_groups(&s).map(Address::V6)
                };
                Reply::Parsed { address }
            }
            Action::LookupName(address) => {
                let name = match address {
                    Address::V4(a) => {
                        self.lookups.push(*a as u128);
                        self.names.get(a)
                    }
                    Address::V6(a) => {
                        self.lookups.push(*a);
                        self.names6.get(a)
                    }
                };
                match name {
                    Some(name) => {
                        let mut host = name.as_bytes().to_vec();
                        host.resize(1025, 0);
                        Reply::Name { status: 0, host }
                    }
                    None => Reply::Name { status: 11001, host: vec![0; 1025] },
                }
            }
            Action::QueryTotals(q) => {
                self.queries += 1;
                match q {
                    TotalsQuery::V4(row) => assert_eq!(row.state, 5),
                    TotalsQuery::V6(row) => {
                        assert_eq!(row.state, 5);
                        assert_eq!((row.local_scope, row.remote_scope), (12, 13));
                    }
                }
                Reply::Totals { code: self.totals.0, sent: self.totals.1, received: self.totals.2 }
            }
            Action::Pause { .. } => Reply::Done,
        }
    }

    fn taken(&mut self) -> Vec<String> {
        std::mem::take(&mut self.lines)
    }
}

/// An IPv6 address in eight groups.
fn groups(a: u128) -> String {
    let g: Vec<String> = (0..8).map(|i| format!("{:x}", (a >> (112 - 16 * i)) & 0xffff)).collect();
    g.join(":")
}

fn parse_groups(s: &str) -> Option<u128> {
    let g: Vec<u128> = s.split(':').filter_map(|p| u128::from_str_radix(p, 16).ok()).collect();
    if g.len() == 8 {
        Some(g.iter().fold(0, |a, x| a << 16 | x))
    } else {
        None
    }
}

fn line(e: &Event) -> String {
    match e {
        Event::Start { time, message } => format!("START {} | {}", time, message),
        Event::ProcessStart { message, .. } => message.clone(),
        Event::ProcessExit { message, .. } => message.clone(),
        Event::Open { host, direction, message, .. } => {
            format!("{} | {} {}", message, direction, host)
        }
        Event::State { key, message, .. } => format!("{} | {}", message, key),
        Event::Closed { host, bytes_sent, bytes_recv, opened, message, .. } => {
            format!("{} | {} {} {} {}", message, opened, host, bytes_sent, bytes_recv)
        }
    }
}

/// Runs up to the next pause; gives the action of the pause.
fn round(m: &mut Monitor, first: Action, w: &mut World) -> (String, u64) {
    let mut action = first;
    loop {
        if let Action::Pause { status, millis } = &action {
            return (status.clone(), *millis);
        }
        let reply = w.perform(&action);
        action = m.advance(reply).unwrap();
    }
}

fn next(m: &mut Monitor, w: &mut World) -> (String, u64) {
    let action = m.advance(Reply::Done).unwrap();
    round(m, action, w)
}

const LOCAL: [u8; 4] = [192, 168, 1, 5];
const REMOTE: [u8; 4] = [104, 18, 32, 1];

#[test]
fn waits_for_the_process() {
    let mut w = World::new();
    w.processes = vec![(4, "System")];
    let (mut m, first) = Monitor::new();
    let pause = round(&mut m, first, &mut w);
    assert_eq!(pause, ("\r\x1b[90mwaiting for vgc.exe...\x1b[0m    ".to_string(), 500));
    assert_eq!(w.taken(), vec!["START 2026-05-06 14:32:03.789 | vgc-netwatch started"]);
    assert_eq!(next(&mut m, &mut w).1, 500);
    assert_eq!(w.taken(), Vec::<String>::new());
}

#[test]
fn follows_a_connection_from_opening_to_closing() {
    let mut w = World::new();
    w.processes = vec![(4, "System"), (12480, "VGC.exe")];
    w.names.insert(u32::from_le_bytes(REMOTE), "riotgames.com");
    w.tcp = vec![
        (3, LOCAL, 53412, REMOTE, 443, 12480),
        (5, LOCAL, 53413, REMOTE, 443, 99),
    ];
    let (mut m, first) = Monitor::new();
    let pause = round(&mut m, first, &mut w);
    assert_eq!(pause, ("\r\x1b[90mpids=1  active=1\x1b[0m   ".to_string(), 100));
    assert_eq!(
        w.taken(),
        vec![
            "START 2026-05-06 14:32:03.789 | vgc-netwatch started",
            "vgc.exe started  pid=12480  session=1",
            "OPEN    [TCP] 192.168.1.5:53412 -> 104.18.32.1:443 (HTTPS) [SYN_SENT] | outbound riotgames.com",
        ]
    );
    next(&mut m, &mut w);
    assert_eq!(w.taken(), Vec::<String>::new());
    w.tcp[0].0 = 5;
    next(&mut m, &mut w);
    assert_eq!(
        w.taken(),
        vec!["state change SYN_SENT -> ESTABLISHED | TCP|192.168.1.5:53412|104.18.32.1:443"]
    );
    w.tcp[0].0 = 11;
    next(&mut m, &mut w);
    w.taken();
    w.tcp.remove(0);
    w.nanos = 1_820_999_999;
    let pause = next(&mut m, &mut w);
    assert_eq!(pause.0, "\r\x1b[90mpids=1  active=0\x1b[0m   ");
    assert_eq!(
        w.taken(),
        vec!["CLOSE   [TCP] 192.168.1.5:53412 -> 104.18.32.1:443 (HTTPS) [TIME_WAIT]  (1820ms) | 2026-05-06 14:32:03.789 riotgames.com 4321 18204"]
    );
    assert_eq!(w.lookups.len(), 1);
    assert_eq!(w.queries, 1);
    next(&mut m, &mut w);
    assert_eq!(w.taken(), Vec::<String>::new());
}

#[test]
fn a_connection_that_goes_in_syn_sent_failed() {
    let mut w = World::new();
    w.processes = vec![(1, "vgc.exe")];
    w.tcp = vec![(3, LOCAL, 1, [8, 8, 8, 8], 53, 1), (5, LOCAL, 2, [127, 0, 0, 1], 80, 1)];
    w.totals = (5, 1, 1);
    let (mut m, first) = Monitor::new();
    round(&mut m, first, &mut w);
    w.taken();
    w.tcp.clear();
    w.nanos = 7_000_000;
    next(&mut m, &mut w);
    assert_eq!(
        w.taken(),
        vec![
            "FAILED  [TCP] 192.168.1.5:1 -> 8.8.8.8:53 (DNS) [SYN_SENT]  (7ms) | 2026-05-06 14:32:03.789  0 0",
            "CLOSE   [TCP] 192.168.1.5:2 -> 127.0.0.1:80 (HTTP) [ESTABLISHED]  (7ms) | 2026-05-06 14:32:03.789  0 0",
        ]
    );
    assert_eq!(w.queries, 1);
}

#[test]
fn an_exit_closes_what_is_open() {
    let mut w = World::new();
    w.processes = vec![(1, "vgc.exe"), (2, "vgc.exe")];
    w.tcp = vec![(5, LOCAL, 1, REMOTE, 443, 1), (5, LOCAL, 2, REMOTE, 443, 2)];
    w.udp = vec![(LOCAL, 3478, 2), (LOCAL, 1, 3)];
    let (mut m, first) = Monitor::new();
    let pause = round(&mut m, first, &mut w);
    assert_eq!(pause.0, "\r\x1b[90mpids=2  active=3\x1b[0m   ");
    assert_eq!(w.taken().len(), 6);
    assert_eq!(w.parses, 1);
    w.processes = vec![];
    let pause = next(&mut m, &mut w);
    assert_eq!(pause.1, 500);
    let lines = w.taken();
    assert_eq!(lines[0], "vgc.exe exited  pid=1  session=1");
    assert_eq!(lines[1], "vgc.exe exited  pid=2  session=2");
    assert!(lines[2].starts_with("CLOSE   [TCP] 192.168.1.5:1 -> "));
    assert!(lines[3].starts_with("CLOSE   [TCP] 192.168.1.5:2 -> "));
    assert!(lines[4].starts_with("CLOSE   [UDP] 192.168.1.5:3478 -> *:0  (0ms)"));
    assert_eq!(lines.len(), 5);
    w.processes = vec![(1, "vgc.exe")];
    next(&mut m, &mut w);
    let lines = w.taken();
    assert_eq!(lines[0], "vgc.exe started  pid=1  session=3");
    assert_eq!(lines.len(), 2);
    assert_eq!(w.parses, 1);
}

#[test]
fn one_process_less_closes_its_connections_only() {
    let mut w = World::new();
    w.processes = vec![(1, "vgc.exe"), (2, "vgc.exe")];
    w.tcp = vec![(5, LOCAL, 1, REMOTE, 443, 1), (5, LOCAL, 2, REMOTE, 443, 2)];
    let (mut m, first) = Monitor::new();
    round(&mut m, first, &mut w);
    w.taken();
    w.processes.remove(0);
    let pause = next(&mut m, &mut w);
    assert_eq!(pause.0, "\r\x1b[90mpids=1  active=1\x1b[0m   ");
    let lines = w.taken();
    assert_eq!(lines[0], "vgc.exe exited  pid=1  session=1");
    assert!(lines[1].starts_with("CLOSE   [TCP] 192.168.1.5:1 -> "));
    assert_eq!(lines.len(), 2);
}

#[test]
fn a_key_listed_twice_opens_once() {
    let mut w = World::new();
    w.processes = vec![(1, "vgc.exe")];
    w.tcp = vec![(3, LOCAL, 1, REMOTE, 443, 1), (5, LOCAL, 1, REMOTE, 443, 1)];
    let (mut m, first) = Monitor::new();
    let pause = round(&mut m, first, &mut w);
    assert_eq!(pause.0, "\r\x1b[90mpids=1  active=2\x1b[0m   ");
    let lines = w.taken();
    assert!(lines[2].starts_with("OPEN    "));
    assert!(lines[3].starts_with("state change SYN_SENT -> ESTABLISHED"));
    assert_eq!(lines.len(), 4);
}

#[test]
fn hosts_are_looked_up_once_and_told_alike() {
    let mut w = World::new();
    w.processes = vec![(1, "vgc.exe")];
    w.names.insert(u32::from_le_bytes(REMOTE), "a.example");
    w.tcp = vec![
        (5, LOCAL, 1, REMOTE, 443, 1),
        (5, LOCAL, 2, REMOTE, 443, 1),
        (5, LOCAL, 3, [9, 9, 9, 9], 443, 1),
        (2, LOCAL, 4, [0, 0, 0, 0], 0, 1),
    ];
    let (mut m, first) = Monitor::new();
    round(&mut m, first, &mut w);
    w.names.insert(u32::from_le_bytes(REMOTE), "b.example");
    w.tcp.clear();
    w.taken();
    next(&mut m, &mut w);
    let lines = w.taken();
    assert!(lines[0].contains(" a.example "));
    assert!(lines[1].contains(" a.example "));
    assert_eq!(w.lookups, vec![u32::from_le_bytes(REMOTE) as u128, u32::from_le_bytes([9, 9, 9, 9]) as u128]);
    assert_eq!(w.queries, 3);
}

#[test]
fn answers_to_nothing_asked_are_refused() {
    let (mut m, _) = Monitor::new();
    assert!(m.advance(Reply::Done).is_none());
    assert!(!m.accepts(&Reply::Clock(0)));
    assert!(m.advance(Reply::Processes(vec![])).is_none());
    let t = LocalTime { year: 1, month: 1, day: 1, hour: 0, minute: 0, second: 0, milliseconds: 0 };
    assert!(m.accepts(&Reply::Wall(t)));
    assert!(m.advance(Reply::Wall(t)).is_some());
    assert!(m.advance(Reply::Wall(t)).is_none());
    assert!(m.advance(Reply::Done).is_some());
    assert!(m.advance(Reply::Totals { code: 0, sent: 0, received: 0 }).is_none());
}

#[test]
fn steps_go_on_as_advances_do() {
    let (mut m, first) = Monitor::new();
    assert!(matches!(first, Action::ReadWallClock));
    let t = LocalTime { year: 1, month: 1, day: 1, hour: 0, minute: 0, second: 0, milliseconds: 0 };
    assert!(matches!(m.step(Reply::Wall(t)), Action::Log(_)));
    assert!(matches!(m.step(Reply::Done), Action::ListProcesses));
    assert!(matches!(m.step(Reply::Processes(vec![])), Action::Log(_)));
    assert!(matches!(m.step(Reply::Done), Action::Pause { millis: 500, .. }));
}

#[test]
fn ipv6_connections_have_hosts_and_totals() {
    let remote: u128 = 0x2606_4700 << 96 | 1;
    let mut w = World::new();
    w.processes = vec![(1, "vgc.exe")];
    w.names6.insert(remote, "six.example");
    w.tcp6 = vec![(0xfe80 << 112 | 5, 12, remote, 13, 443, 5, 1)];
    let (mut m, first) = Monitor::new();
    round(&mut m, first, &mut w);
    assert_eq!(
        w.taken()[2],
        "OPEN    [TCP6] fe80:0:0:0:0:0:0:5:9000 -> 2606:4700:0:0:0:0:0:1:443 (HTTPS) [ESTABLISHED] | outbound six.example"
    );
    w.tcp6.clear();
    w.nanos = 2_000_000;
    next(&mut m, &mut w);
    assert_eq!(
        w.taken(),
        vec!["CLOSE   [TCP6] fe80:0:0:0:0:0:0:5:9000 -> 2606:4700:0:0:0:0:0:1:443 (HTTPS) [ESTABLISHED]  (2ms) | 2026-05-06 14:32:03.789 six.example 4321 18204"]
    );
    assert_eq!(w.lookups, vec![remote]);
    assert_eq!(w.queries, 1);
}

#[test]
fn texts_that_are_no_address_have_no_host() {
    let mut w = World::new();
    w.processes = vec![(1, "vgc.exe")];
    w.tcp = vec![(5, LOCAL, 1, REMOTE, 443, 1)];
    let (mut m, first) = Monitor::new();
    let mut action = first;
    while !matches!(action, Action::ParseAddress(_)) {
        let reply = w.perform(&action);
        action = m.advance(reply).unwrap();
    }
    action = m.advance(Reply::Parsed { address: None }).unwrap();
    assert!(matches!(action, Action::Log(_)));
    round(&mut m, action, &mut w);
    w.tcp.clear();
    next(&mut m, &mut w);
    assert_eq!(w.parses, 0);
    assert_eq!(w.lookups.len(), 0);
}

#[test]
fn listening_ipv6_sockets_are_not_looked_up() {
    let mut w = World::new();
    w.processes = vec![(1, "vgc.exe")];
    w.names6.insert(0, "this-machine");
    w.tcp6 = vec![(0, 12, 0, 13, 0, 2, 1)];
    let (mut m, first) = Monitor::new();
    round(&mut m, first, &mut w);
    assert_eq!(
        w.taken()[2],
        "OPEN    [TCP6] 0:0:0:0:0:0:0:0:9000 -> 0:0:0:0:0:0:0:0:0 [LISTEN] | outbound "
    );
    w.tcp6.clear();
    next(&mut m, &mut w);
    assert_eq!(w.taken().len(), 1);
    assert_eq!((w.parses, w.lookups.len(), w.queries), (1, 0, 0));
}
