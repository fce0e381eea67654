use std::mem::size_of;

use vgc_netwatch::net;
use vgc_netwatch::tables::{TCP6_ROW, TCP_ROW, UDP6_ROW, UDP_ROW};
use windows::Win32::Foundation::NO_ERROR;
use windows::Win32::NetworkManagement::IpHelper::{
    MIB_TCP6ROW_OWNER_PID, MIB_TCP6TABLE_OWNER_PID, MIB_TCPROW_OWNER_PID, MIB_TCPTABLE_OWNER_PID,
    MIB_TCP_STATE_CLOSED, MIB_TCP_STATE_CLOSE_WAIT, MIB_TCP_STATE_CLOSING, MIB_TCP_STATE_ESTAB,
    MIB_TCP_STATE_FIN_WAIT1, MIB_TCP_STATE_FIN_WAIT2, MIB_TCP_STATE_LAST_ACK,
    MIB_TCP_STATE_LISTEN, MIB_TCP_STATE_SYN_RCVD, MIB_TCP_STATE_SYN_SENT, MIB_TCP_STATE_TIME_WAIT,
    MIB_UDP6ROW_OWNER_PID, MIB_UDP6TABLE_OWNER_PID, MIB_UDPROW_OWNER_PID, MIB_UDPTABLE_OWNER_PID,
};

#[test]
fn states_are_those_of_the_system() {
    assert_eq!(net::MIB_TCP_STATE_CLOSED as i32, MIB_TCP_STATE_CLOSED.0);
    assert_eq!(net::MIB_TCP_STATE_LISTEN as i32, MIB_TCP_STATE_LISTEN.0);
    assert_eq!(net::MIB_TCP_STATE_SYN_SENT as i32, MIB_TCP_STATE_SYN_SENT.0);
    assert_eq!(net::MIB_TCP_STATE_SYN_RCVD as i32, MIB_TCP_STATE_SYN_RCVD.0);
    assert_eq!(net::MIB_TCP_STATE_ESTAB as i32, MIB_TCP_STATE_ESTAB.0);
    assert_eq!(net::MIB_TCP_STATE_FIN_WAIT1 as i32, MIB_TCP_STATE_FIN_WAIT1.0);
    assert_eq!(net::MIB_TCP_STATE_FIN_WAIT2 as i32, MIB_TCP_STATE_FIN_WAIT2.0);
    assert_eq!(net::MIB_TCP_STATE_CLOSE_WAIT as i32, MIB_TCP_STATE_CLOSE_WAIT.0);
    assert_eq!(net::MIB_TCP_STATE_CLOSING as i32, MIB_TCP_STATE_CLOSING.0);
    assert_eq!(net::MIB_TCP_STATE_LAST_ACK as i32, MIB_TCP_STATE_LAST_ACK.0);
    assert_eq!(net::MIB_TCP_STATE_TIME_WAIT as i32, MIB_TCP_STATE_TIME_WAIT.0);
}

#[test]
fn success_is_that_of_the_system() {
    assert_eq!(net::NO_ERROR, NO_ERROR.0);
}

#[test]
fn rows_are_as_large_as_those_of_the_system() {
    assert_eq!(TCP_ROW, size_of::<MIB_TCPROW_OWNER_PID>());
    assert_eq!(UDP_ROW, size_of::<MIB_UDPROW_OWNER_PID>());
    assert_eq!(TCP6_ROW, size_of::<MIB_TCP6ROW_OWNER_PID>());
    assert_eq!(UDP6_ROW, size_of::<MIB_UDP6ROW_OWNER_PID>());
    assert_eq!(4 + TCP_ROW, size_of::<MIB_TCPTABLE_OWNER_PID>());
    assert_eq!(4 + UDP_ROW, size_of::<MIB_UDPTABLE_OWNER_PID>());
    assert_eq!(4 + TCP6_ROW, size_of::<MIB_TCP6TABLE_OWNER_PID>());
    assert_eq!(4 + UDP6_ROW, size_of::<MIB_UDP6TABLE_OWNER_PID>());
}
