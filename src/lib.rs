//! Incremental framing of terminal input: bytes in, events paired with the
//! exact bytes that encoded them out.

pub mod buffer;
pub mod decoder;
pub mod event;
pub mod frame;
pub mod oracle;
pub mod views;
pub mod chunks;
