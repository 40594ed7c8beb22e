//! A verified encoder and decoder for a subset of the RESP wire protocol:
//! simple strings (`+<text>\r\n`), bulk strings (`$<len>\r\n<payload>\r\n`)
//! and simple errors (`-<text>\r\n`, encode only).
pub mod resp;
