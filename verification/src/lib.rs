//! Y4M (YUV4MPEG2) container front end: format probe, header parser and
//! the demuxer's event-sequencing state machine.

pub mod demuxer;
pub mod error;
pub mod parser;
pub mod utf8;
