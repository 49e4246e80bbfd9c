//! Overlay mesh networking core: packet codec, handshake driving,
//! message packetization and reassembly, and transit routing decisions.

pub mod assembler;
pub mod channel;
pub mod codec;
pub mod disassembler;
pub mod entropy;
pub mod handler;
pub mod ipc;
pub mod keys;
pub mod laws;
pub mod lz4;
pub mod msgcodec;
pub mod noise;
pub mod packet;
pub mod peer;
pub mod proto;
pub mod ranges;
pub mod ring;
pub mod router;
pub mod wire;

pub use keys::PrivateKey;
pub use keys::PublicKey;
