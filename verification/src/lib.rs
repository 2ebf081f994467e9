//! An in-memory reassembly buffer: it accepts indexed chunks of a byte
//! stream in any arrival order and releases the stream's bytes strictly in
//! index order, with no gaps, no duplication and no loss.

pub mod buffer;
pub mod laws;
pub mod message;
