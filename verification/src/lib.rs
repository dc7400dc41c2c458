//! Incremental decoding and encoding of RESP, the wire format of Redis.
//!
//! A connection appends what it reads to a [`bytes::BytesMut`];
//! [`parser::RespParser::decode`] takes one complete frame off its front as a
//! [`parser::RespOrig`], or reports that more bytes are needed, or that the
//! input can never become a frame. [`handler::ToResp`] writes a value back as
//! wire bytes, and [`parser::RespOrig::handle_command`] answers the two
//! commands the server knows.
//!
//! The modules, from the ground up:
//!
//! - [`buffer`] and [`text`] state what is believed of the `bytes` crate and
//!   of two functions of the standard library;
//! - [`decimal`] reads and writes signed decimal numbers;
//! - [`wire`] is the mathematical model of frames, which every contract of
//!   the decoder and the encoder is stated over;
//! - [`scan`] finds the terminator of a line;
//! - [`parser`] is the decoder, [`handler`] the encoder and the commands;
//! - [`laws`] proves how decoding and encoding relate.

pub mod buffer;
pub mod decimal;
pub mod handler;
pub mod laws;
pub mod parser;
pub mod scan;
pub mod text;
pub mod wire;
