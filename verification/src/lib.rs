//! The logic of `vgc_netwatch`, a passive observer of the network activity of one
//! Windows process.

pub mod active;
pub mod clock;
pub mod connection;
pub mod directory;
pub mod dns;
pub mod event;
pub mod histories;
pub mod laws;
pub mod lifetimes;
pub mod model;
pub mod monitor;
pub mod net;
pub mod polls;
pub mod process;
pub mod replies;
pub mod rounds;
pub mod seqs;
pub mod sessions;
pub mod tables;
pub mod text;
pub mod wire;
