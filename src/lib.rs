//! The client side of a language-server transport: JSON-RPC 2.0 messages in
//! `Content-Length` frames, the session's opening handshake, and the
//! decisions of the loop that reads the server's output.
//!
//! Everything here works on values; spawning the server, the pipes and the
//! reader thread belong to the program that uses the library.
pub mod decimal;
pub mod frame;
pub mod handshake;
pub mod message;
pub mod reader;
