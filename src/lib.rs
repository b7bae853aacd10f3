//! Networked server core of a Raft node: the connection table, the peer and
//! client indexes, the timer wheel, the wire framing and preamble handshake,
//! and the execution of consensus actions. Sockets, the readiness source and
//! the consensus engine itself are driven from outside through plain values.

mod codec;
mod connection;
mod server;
mod table;
mod timers;

pub use codec::{
    decode_frames, decode_preamble, encode_frame, encode_preamble, Preamble, CLIENT_TAG,
    MAX_FRAME_LEN, SERVER_TAG,
};
pub use connection::{Connection, ConnectionKind};
pub use server::{
    Actions, Delivery, Fired, RaftError, Server, ServerBuilder, TimeoutConfiguration,
    MAX_ADDR_LEN, RECONNECT_DELAY_MILLIS,
};
pub use timers::{ConsensusTimeout, ServerTimeout, Timer, TimerWheel};
