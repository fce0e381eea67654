use vgc_netwatch::connection::{
    endpoint_string, fmt_endpoint, fmt_ends, text_is, ConnectionInfo,
};
use vgc_netwatch::event::{
    log_connection_close, log_connection_open, log_session, log_start, log_state_change,
    query_tcp_data_totals, query_totals, tcp_data_totals, wants_totals, ConnectionRecord, Event,
    TcpDataTotals, TotalsQuery,
};
use vgc_netwatch::sessions::SessionChange;

fn conn(proto: &str, rip: &str, rport: u16, state: u32) -> ConnectionInfo {
    ConnectionInfo {
        proto: proto.to_string(),
        lip: "192.168.1.5".to_string(),
        lport: 53412,
        rip: rip.to_string(),
        rport,
        state,
        lip_raw: u32::from_le_bytes([192, 168, 1, 5]),
        rip_raw: u32::from_le_bytes([104, 18, 32, 1]),
        lip6_raw: 0xfe80 << 112 | 5,
        rip6_raw: 0x2606_4700 << 96 | 1,
        lscope: 12,
        rscope: 13,
    }
}

#[test]
fn keys_and_endpoints() {
    let c = conn("TCP", "104.18.32.1", 443, 3);
    assert_eq!(c.key(), "TCP|192.168.1.5:53412|104.18.32.1:443");
    assert_eq!(endpoint_string(&"::1".to_string(), 8), "::1:8");
    assert!(text_is(&"a".to_string(), "a"));
    assert!(!text_is(&"a".to_string(), "ab"));
}

#[test]
fn keys_may_coincide_where_an_address_holds_the_separator() {
    let mut a = conn("TCP", "b:2|c", 3, 5);
    a.lip = "a".to_string();
    a.lport = 1;
    let mut b = conn("TCP", "c", 3, 5);
    b.lip = "a:1|b".to_string();
    b.lport = 2;
    assert_eq!(a.key(), b.key());
}

#[test]
fn clones_are_equal() {
    let c = conn("TCP", "104.18.32.1", 443, 3);
    let d = c.clone();
    assert_eq!(c.key(), d.key());
    assert_eq!((c.state, c.lip_raw, c.rip_raw), (d.state, d.lip_raw, d.rip_raw));
}

#[test]
fn descriptions() {
    assert_eq!(
        fmt_ends(&conn("TCP", "104.18.32.1", 443, 3)),
        "[TCP] 192.168.1.5:53412 -> 104.18.32.1:443"
    );
    assert_eq!(
        fmt_endpoint(&conn("TCP", "104.18.32.1", 443, 3)),
        "[TCP] 192.168.1.5:53412 -> 104.18.32.1:443 (HTTPS) [SYN_SENT]"
    );
    assert_eq!(
        fmt_endpoint(&conn("TCP6", "fe80::1", 22, 77)),
        "[TCP6] 192.168.1.5:53412 -> fe80::1:22 [?]"
    );
    assert_eq!(fmt_endpoint(&conn("UDP", "*", 0, 0)), "[UDP] 192.168.1.5:53412 -> *:0");
    assert_eq!(
        fmt_endpoint(&conn("UDP6", "*", 49152, 5)),
        "[UDP6] 192.168.1.5:53412 -> *:49152 (ephemeral)"
    );
}

#[test]
fn start_and_sessions() {
    match log_start("2026-05-06 14:32:01.123".to_string()) {
        Event::Start { time, message } => {
            assert_eq!(time, "2026-05-06 14:32:01.123");
            assert_eq!(message, "vgc-netwatch started");
        }
        _ => panic!("not a start"),
    }
    match log_session(&SessionChange::Started { pid: 12480, session: 1 }) {
        Event::ProcessStart { pid, session, message } => {
            assert_eq!((pid, session), (12480, 1));
            assert_eq!(message, "vgc.exe started  pid=12480  session=1");
        }
        _ => panic!("not a start"),
    }
    match log_session(&SessionChange::Exited { pid: 7, session: i32::MAX }) {
        Event::ProcessExit { pid, session, message } => {
            assert_eq!((pid, session), (7, i32::MAX));
            assert_eq!(message, "vgc.exe exited  pid=7  session=2147483647");
        }
        _ => panic!("not an exit"),
    }
}

#[test]
fn openings() {
    match log_connection_open(&conn("TCP", "104.18.32.1", 443, 3), "riotgames.com".to_string()) {
        Event::Open { proto, local, remote, host, service, state, direction, message } => {
            assert_eq!(proto, "TCP");
            assert_eq!(local, "192.168.1.5:53412");
            assert_eq!(remote, "104.18.32.1:443");
            assert_eq!(host, "riotgames.com");
            assert_eq!(service, "HTTPS");
            assert_eq!(state, "SYN_SENT");
            assert_eq!(direction, "outbound");
            assert_eq!(
                message,
                "OPEN    [TCP] 192.168.1.5:53412 -> 104.18.32.1:443 (HTTPS) [SYN_SENT]"
            );
        }
        _ => panic!("not an opening"),
    }
    match log_connection_open(&conn("UDP", "*", 0, 0), String::new()) {
        Event::Open { direction, state, service, host, .. } => {
            assert_eq!(direction, "listen");
            assert_eq!(state, "?");
            assert_eq!(service, "");
            assert_eq!(host, "");
        }
        _ => panic!("not an opening"),
    }
}

#[test]
fn state_changes() {
    match log_state_change(&conn("TCP", "104.18.32.1", 443, 5), 3) {
        Event::State { key, old_state, new_state, message } => {
            assert_eq!(key, "TCP|192.168.1.5:53412|104.18.32.1:443");
            assert_eq!(old_state, "SYN_SENT");
            assert_eq!(new_state, "ESTABLISHED");
            assert_eq!(message, "state change SYN_SENT -> ESTABLISHED");
        }
        _ => panic!("not a change"),
    }
}

fn record(state: u32) -> ConnectionRecord {
    ConnectionRecord {
        conn: conn("TCP", "104.18.32.1", 443, state),
        t0: 0,
        t0_wall: "2026-05-06 14:32:02.192".to_string(),
    }
}

#[test]
fn closings() {
    let t = TcpDataTotals { tx: 4321, rx: 18204 };
    match log_connection_close(&record(11), 1820, "riotgames.com".to_string(), t) {
        Event::Closed {
            failed,
            proto,
            local,
            remote,
            host,
            service,
            duration_ms,
            opened,
            bytes_sent,
            bytes_recv,
            message,
            record,
        } => {
            assert!(!failed);
            assert_eq!(proto, "TCP");
            assert_eq!(local, "192.168.1.5:53412");
            assert_eq!(remote, "104.18.32.1:443");
            assert_eq!(host, "riotgames.com");
            assert_eq!(service, "HTTPS");
            assert_eq!(duration_ms, 1820);
            assert_eq!(opened, "2026-05-06 14:32:02.192");
            assert_eq!(bytes_sent, 4321);
            assert_eq!(bytes_recv, 18204);
            assert_eq!(
                message,
                "CLOSE   [TCP] 192.168.1.5:53412 -> 104.18.32.1:443 (HTTPS) [TIME_WAIT]  (1820ms)"
            );
            assert_eq!(
                record,
                "CLOSE   [TCP] 192.168.1.5:53412 -> 104.18.32.1:443  (1820ms)"
            );
        }
        _ => panic!("not a closing"),
    }
}

#[test]
fn failures() {
    match log_connection_close(&record(3), 0, String::new(), TcpDataTotals::default()) {
        Event::Closed { failed, bytes_sent, bytes_recv, message, record, .. } => {
            assert!(failed);
            assert_eq!(record, "FAILED  [TCP] 192.168.1.5:53412 -> 104.18.32.1:443  (0ms)");
            assert_eq!((bytes_sent, bytes_recv), (0, 0));
            assert_eq!(
                message,
                "FAILED  [TCP] 192.168.1.5:53412 -> 104.18.32.1:443 (HTTPS) [SYN_SENT]  (0ms)"
            );
        }
        _ => panic!("not a closing"),
    }
}

#[test]
fn totals() {
    let q = query_tcp_data_totals(0x0501a8c0, 53412, 0x01201268, 443);
    assert_eq!(q.state, 5);
    assert_eq!(q.local_addr, 0x0501a8c0);
    assert_eq!(q.local_port, 53412u16.to_be() as u32);
    assert_eq!(q.remote_addr, 0x01201268);
    assert_eq!(q.remote_port, 443u16.to_be() as u32);
    let t = tcp_data_totals(0, 3, 4);
    assert_eq!((t.tx, t.rx), (3, 4));
    let f = tcp_data_totals(5, 3, 4);
    assert_eq!((f.tx, f.rx), (0, 0));
}

#[test]
fn queries_by_protocol() {
    match query_totals(&conn("TCP", "104.18.32.1", 443, 5)) {
        TotalsQuery::V4(q) => {
            assert_eq!(q.local_addr, u32::from_le_bytes([192, 168, 1, 5]));
            assert_eq!(q.remote_addr, u32::from_le_bytes([104, 18, 32, 1]));
            assert_eq!(q.remote_port, 443u16.to_be() as u32);
        }
        TotalsQuery::V6(_) => panic!("not an IPv4 query"),
    }
    match query_totals(&conn("TCP6", "2606:4700::1", 443, 3)) {
        TotalsQuery::V6(q) => {
            assert_eq!(q.state, 5);
            assert_eq!(q.local_addr, 0xfe80 << 112 | 5);
            assert_eq!(q.local_scope, 12);
            assert_eq!(q.local_port, 53412u16.to_be() as u32);
            assert_eq!(q.remote_addr, 0x2606_4700 << 96 | 1);
            assert_eq!(q.remote_scope, 13);
            assert_eq!(q.remote_port, 443u16.to_be() as u32);
        }
        TotalsQuery::V4(_) => panic!("not an IPv6 query"),
    }
}

#[test]
fn who_has_totals() {
    assert!(wants_totals(&conn("TCP", "104.18.32.1", 443, 5)));
    let mut six = conn("TCP6", "2606:4700::1", 443, 5);
    assert!(wants_totals(&six));
    six.rip6_raw = 1;
    assert!(!wants_totals(&six));
    six.rip6_raw = 0;
    assert!(!wants_totals(&six));
    assert!(!wants_totals(&conn("UDP6", "*", 0, 0)));
    assert!(!wants_totals(&conn("UDP", "*", 0, 0)));
    assert!(!wants_totals(&conn("TCP", "127.0.0.1", 443, 5)));
    let mut c = conn("TCP", "0.0.0.0", 0, 2);
    c.rip_raw = 0;
    assert!(!wants_totals(&c));
}
