//! A transport-stream remux library: packet field codec, PSI section
//! assembly and packetization, table checksums, PAT/PMT rewriting, and
//! the two-pass merge of a metadata stream into a primary stream.

pub mod clock;
pub mod laws;
pub mod packet;
pub mod packetize;
pub mod reader;
pub mod remux;
pub mod rewrite;
pub mod section;
