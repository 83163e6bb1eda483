//! Host runtime core of a source-routed overlay network: topology tracking,
//! route selection, message fragmentation and the per-host protocol machine.

pub mod assembler;
pub mod card;
pub mod codec;
pub mod graph;
pub mod host;
pub mod information;
pub mod message;
pub mod node;
pub mod packet;
pub mod routing;
pub mod turn;
