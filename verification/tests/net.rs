use vgc_netwatch::net::{
    ipv4_to_string, ipv6_to_string, port_from_wire, port_service, port_to_wire, tcp_state_name,
};

#[test]
fn dotted_notation() {
    assert_eq!(ipv4_to_string(0x0100007f), "127.0.0.1");
    assert_eq!(ipv4_to_string(0), "0.0.0.0");
    assert_eq!(ipv4_to_string(0xffffffff), "255.255.255.255");
    assert_eq!(ipv4_to_string(u32::from_le_bytes([192, 168, 1, 5])), "192.168.1.5");
}

#[test]
fn dotted_notations_differ() {
    assert_ne!(
        ipv4_to_string(u32::from_le_bytes([1, 11, 1, 1])),
        ipv4_to_string(u32::from_le_bytes([11, 1, 1, 1]))
    );
}

#[test]
fn ipv6_notation_from_buffer() {
    let mut host = [0u8; 64];
    host[..7].copy_from_slice(b"fe80::1");
    assert_eq!(ipv6_to_string(&host), "fe80::1");
    assert_eq!(ipv6_to_string(&[0u8; 64]), "");
    assert_eq!(ipv6_to_string(b"::1"), "::1");
}

#[test]
fn service_hints() {
    let hints = [
        (80, "HTTP"),
        (443, "HTTPS"),
        (8443, "HTTPS-alt"),
        (8080, "HTTP-proxy"),
        (3478, "STUN/TURN"),
        (3479, "STUN/TURN-alt"),
        (5222, "XMPP"),
        (5223, "XMPP-TLS"),
        (2099, "Riot-login"),
        (8393, "Riot-launcher"),
        (9339, "Riot-patch"),
        (123, "NTP"),
        (53, "DNS"),
        (49151, ""),
        (49152, "ephemeral"),
        (65535, "ephemeral"),
        (0, ""),
        (22, ""),
    ];
    for (port, name) in hints {
        assert_eq!(port_service(port), name);
    }
}

#[test]
fn state_names() {
    let names = [
        "?",
        "CLOSED",
        "LISTEN",
        "SYN_SENT",
        "SYN_RCVD",
        "ESTABLISHED",
        "FIN_WAIT1",
        "FIN_WAIT2",
        "CLOSE_WAIT",
        "CLOSING",
        "LAST_ACK",
        "TIME_WAIT",
        "?",
    ];
    for (i, name) in names.iter().enumerate() {
        assert_eq!(tcp_state_name(i as u32), *name);
    }
    assert_eq!(tcp_state_name(u32::MAX), "?");
}

#[test]
fn ports_on_the_wire() {
    assert_eq!(port_from_wire(0xBB01), 443);
    assert_eq!(port_from_wire(0xdead_BB01), 443);
    assert_eq!(port_to_wire(443), 0xBB01);
    for p in [0u16, 1, 80, 255, 256, 443, 49152, 65535] {
        assert_eq!(port_from_wire(port_to_wire(p)), p);
        assert_eq!(port_to_wire(p), p.to_be() as u32);
    }
}
