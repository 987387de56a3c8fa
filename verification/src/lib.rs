//! One-to-many file transfer over UDP: the wire format, the forward error
//! correction code and the sender and receiver state machines.

pub mod addr;
pub mod answers;
pub mod bitmap;
pub mod cast;
pub mod cauchy;
pub mod delivery;
pub mod diskio;
pub mod fec;
pub mod fifo;
pub mod gf;
pub mod incoming;
pub mod matrix;
pub mod negotiate;
pub mod netsender;
pub mod outgoing;
pub mod participants;
pub mod process;
pub mod produconsum;
pub mod protocol;
pub mod rate;
pub mod receivedata;
pub mod receiver;
pub mod recvslice;
pub mod repair;
pub mod senddata;
pub mod sender;
pub mod sendslice;
pub mod socklib;
pub mod statistics;
pub mod text;
pub mod transfer;
pub mod util;
pub mod wire;
