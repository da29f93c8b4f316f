//! Coordination core of a mesh file-sharing host: chunk layout of shared
//! files, per-endpoint chunk bookkeeping, host HTTP round-robin dispatch and
//! peer-to-peer chunk matching.

pub mod chunking;
pub mod dispatch;
pub mod ids;
pub mod laws;
pub mod matching;
pub mod messages;
pub mod p2p;
pub mod reactor;
pub mod session;
pub mod table;
pub mod text;
