use vgc_netwatch::active::Active;
use vgc_netwatch::connection::ConnectionInfo;
use vgc_netwatch::event::ConnectionRecord;

fn conn(lport: u16, state: u32) -> ConnectionInfo {
    ConnectionInfo {
        proto: "TCP".to_string(),
        lip: "10.0.0.1".to_string(),
        lport,
        rip: "10.0.0.2".to_string(),
        rport: 443,
        state,
        lip_raw: 1,
        rip_raw: 2,
        lip6_raw: 0,
        rip6_raw: 0,
        lscope: 0,
        rscope: 0,
    }
}

fn open(ports: &[u16]) -> Active {
    let mut a = Active::new();
    for p in ports {
        a.insert(ConnectionRecord { conn: conn(*p, 3), t0: *p as u128, t0_wall: p.to_string() });
    }
    a
}

#[test]
fn states_are_followed() {
    let mut a = open(&[1, 2]);
    assert_eq!(a.last_state(&conn(1, 5)), Some(3));
    assert_eq!(a.last_state(&conn(3, 5)), None);
    a.set_state(&conn(1, 5));
    assert_eq!(a.last_state(&conn(1, 0)), Some(5));
    assert_eq!(a.last_state(&conn(2, 0)), Some(3));
    let recs = a.drain();
    assert_eq!(recs.len(), 2);
    assert_eq!((recs[0].t0, recs[0].conn.state), (1, 5));
    assert_eq!((recs[1].t0, recs[1].conn.state), (2, 3));
    assert_eq!(a.last_state(&conn(1, 0)), None);
}

#[test]
fn news_are_new_or_changed() {
    let a = open(&[1, 2]);
    let conns = vec![conn(1, 3), conn(2, 3), conn(2, 5), conn(4, 3), conn(1, 3)];
    assert_eq!(a.first_news(&conns, 0), 2);
    assert_eq!(a.first_news(&conns, 3), 3);
    assert_eq!(a.first_news(&conns, 4), 5);
    assert_eq!(a.first_news(&conns, 5), 5);
    assert_eq!(a.first_news(&vec![], 0), 0);
}

#[test]
fn stale_ones_are_taken_out() {
    let mut a = open(&[1, 2, 3, 4]);
    let gone = a.take_stale(&vec![conn(4, 9), conn(2, 3), conn(7, 3)]);
    let ports: Vec<u16> = gone.iter().map(|r| r.conn.lport).collect();
    assert_eq!(ports, vec![1, 3]);
    let rest = a.take_stale(&vec![]);
    let ports: Vec<u16> = rest.iter().map(|r| r.conn.lport).collect();
    assert_eq!(ports, vec![2, 4]);
    assert_eq!(rest[1].conn.state, 3);
}
