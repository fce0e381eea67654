use vgc_netwatch::tables::{
    connections, enumerate_connections, needed_addresses, owned_rows, TableRead, Tables,
};

fn put(b: &mut Vec<u8>, v: u32) {
    b.extend_from_slice(&v.to_le_bytes());
}

fn port(p: u16) -> u32 {
    p.to_be() as u32
}

fn tcp(rows: &[(u32, [u8; 4], u16, [u8; 4], u16, u32)]) -> Vec<u8> {
    let mut b = Vec::new();
    put(&mut b, rows.len() as u32);
    for (state, local, lport, remote, rport, pid) in rows {
        put(&mut b, *state);
        b.extend_from_slice(local);
        put(&mut b, port(*lport));
        b.extend_from_slice(remote);
        put(&mut b, port(*rport));
        put(&mut b, *pid);
    }
    b
}

fn udp(rows: &[([u8; 4], u16, u32)]) -> Vec<u8> {
    let mut b = Vec::new();
    put(&mut b, rows.len() as u32);
    for (local, lport, pid) in rows {
        b.extend_from_slice(local);
        put(&mut b, port(*lport));
        put(&mut b, *pid);
    }
    b
}

fn v6(last: u8) -> [u8; 16] {
    let mut a = [0u8; 16];
    a[0] = 0xfe;
    a[15] = last;
    a
}

fn tcp6(rows: &[(u8, u16, u8, u16, u32, u32)]) -> Vec<u8> {
    let mut b = Vec::new();
    put(&mut b, rows.len() as u32);
    for (local, lport, remote, rport, state, pid) in rows {
        b.extend_from_slice(&v6(*local));
        put(&mut b, 0x5c);
        put(&mut b, port(*lport));
        b.extend_from_slice(&v6(*remote));
        put(&mut b, 0x5d);
        put(&mut b, port(*rport));
        put(&mut b, *state);
        put(&mut b, *pid);
    }
    b
}

fn udp6(rows: &[(u8, u16, u32)]) -> Vec<u8> {
    let mut b = Vec::new();
    put(&mut b, rows.len() as u32);
    for (local, lport, pid) in rows {
        b.extend_from_slice(&v6(*local));
        put(&mut b, 0x5c);
        put(&mut b, port(*lport));
        put(&mut b, *pid);
    }
    b
}

fn read(buf: Vec<u8>) -> TableRead {
    TableRead { status: 0, buf }
}

fn sample() -> Tables {
    Tables {
        tcp: read(tcp(&[
            (3, [192, 168, 1, 5], 53412, [104, 18, 32, 1], 443, 12480),
            (5, [10, 0, 0, 1], 80, [10, 0, 0, 2], 81, 99),
        ])),
        udp: read(udp(&[([0, 0, 0, 0], 5353, 99), ([192, 168, 1, 5], 3478, 7)])),
        tcp6: read(tcp6(&[(1, 1000, 2, 443, 5, 7), (3, 1, 4, 2, 5, 99)])),
        udp6: read(udp6(&[(9, 546, 12480)])),
    }
}

#[test]
fn connections_of_the_watched_processes() {
    let hosts = vec![b"fe00::1\0".to_vec(), b"fe00::2".to_vec(), b"fe00::9\0\0".to_vec()];
    let conns = enumerate_connections(&vec![12480, 7], &sample(), &hosts);
    let keys: Vec<String> = conns.iter().map(|c| c.key()).collect();
    assert_eq!(
        keys,
        vec![
            "TCP|192.168.1.5:53412|104.18.32.1:443",
            "UDP|192.168.1.5:3478|*:0",
            "TCP6|fe00::1:1000|fe00::2:443",
            "UDP6|fe00::9:546|*:0",
        ]
    );
    assert_eq!(conns[0].state, 3);
    assert_eq!(conns[0].lip_raw, u32::from_le_bytes([192, 168, 1, 5]));
    assert_eq!(conns[0].rip_raw, u32::from_le_bytes([104, 18, 32, 1]));
    assert_eq!(conns[1].state, 0);
    assert_eq!(conns[1].lip_raw, u32::from_le_bytes([192, 168, 1, 5]));
    assert_eq!(conns[1].rip_raw, 0);
    assert_eq!(conns[2].state, 5);
    assert_eq!((conns[2].lip_raw, conns[2].rip_raw), (0, 0));
    assert_eq!(conns[2].lip6_raw, u128::from_be_bytes(v6(1)));
    assert_eq!(conns[2].rip6_raw, u128::from_be_bytes(v6(2)));
    assert_eq!((conns[2].lscope, conns[2].rscope), (0x5c, 0x5d));
    assert_eq!((conns[0].lip6_raw, conns[0].rip6_raw), (0, 0));
    assert_eq!((conns[0].lscope, conns[0].rscope), (0, 0));
    assert_eq!(conns[3].state, 0);
    assert_eq!((conns[3].lip_raw, conns[3].rip_raw), (0, 0));
}

#[test]
fn addresses_to_write_down() {
    let rows = owned_rows(&sample(), &vec![12480, 7]);
    assert_eq!(
        needed_addresses(&rows),
        vec![
            u128::from_be_bytes(v6(1)),
            u128::from_be_bytes(v6(2)),
            u128::from_be_bytes(v6(9)),
        ]
    );
}

#[test]
fn disjoint_owners_merge() {
    let t = sample();
    let keys = |pids: &Vec<u32>| -> Vec<String> {
        let hosts: Vec<Vec<u8>> = needed_addresses(&owned_rows(&t, pids))
            .iter()
            .map(|a| format!("{:x}", a).into_bytes())
            .collect();
        enumerate_connections(pids, &t, &hosts).iter().map(|c| c.key()).collect()
    };
    let (a, b, u) = (keys(&vec![12480, 7]), keys(&vec![99]), keys(&vec![99, 7, 12480]));
    assert_eq!(u.len(), a.len() + b.len());
    let of_a: Vec<String> = u.iter().filter(|k| a.contains(k)).cloned().collect();
    let of_b: Vec<String> = u.iter().filter(|k| b.contains(k)).cloned().collect();
    assert_eq!(of_a, a);
    assert_eq!(of_b, b);
}

#[test]
fn nobody_watched() {
    let rows = owned_rows(&sample(), &vec![]);
    assert_eq!(needed_addresses(&rows), Vec::<u128>::new());
    assert_eq!(connections(&rows, &vec![]).len(), 0);
}

#[test]
fn missing_notations_are_empty() {
    let conns = enumerate_connections(&vec![7], &sample(), &vec![]);
    assert_eq!(conns[1].key(), "TCP6|:1000|:443");
}

#[test]
fn failed_reads_hold_nothing() {
    let mut t = sample();
    t.tcp.status = 87;
    t.udp.status = 5;
    t.tcp6.buf = vec![];
    t.udp6.buf = vec![1, 0, 0];
    assert_eq!(enumerate_connections(&vec![12480, 7, 99], &t, &vec![]).len(), 0);
}

#[test]
fn rows_beyond_the_buffer_are_ignored() {
    let mut t = sample();
    t.tcp.buf[0] = 200;
    t.tcp.buf.truncate(4 + 24 + 23);
    let conns = enumerate_connections(&vec![12480, 99], &t, &vec![b"a".to_vec()]);
    let keys: Vec<String> = conns.iter().map(|c| c.key()).collect();
    assert_eq!(keys[0], "TCP|192.168.1.5:53412|104.18.32.1:443");
    assert_eq!(keys[1], "UDP|0.0.0.0:5353|*:0");
    t.tcp.buf[0] = 0;
    let fewer = enumerate_connections(&vec![12480], &t, &vec![]);
    assert_eq!(fewer.len(), 1);
}

#[test]
fn keys_tell_connections_apart() {
    let t = Tables {
        tcp: read(tcp(&[
            (5, [1, 1, 1, 1], 1, [2, 2, 2, 2], 22, 1),
            (5, [1, 1, 1, 1], 12, [2, 2, 2, 2], 2, 1),
            (5, [1, 1, 1, 11], 2, [2, 2, 2, 2], 2, 1),
            (3, [1, 1, 1, 1], 1, [2, 2, 2, 2], 22, 1),
        ])),
        udp: read(vec![]),
        tcp6: read(vec![]),
        udp6: read(vec![]),
    };
    let k: Vec<String> =
        enumerate_connections(&vec![1], &t, &vec![]).iter().map(|c| c.key()).collect();
    assert_ne!(k[0], k[1]);
    assert_ne!(k[1], k[2]);
    assert_ne!(k[0], k[2]);
    assert_eq!(k[0], k[3]);
}
