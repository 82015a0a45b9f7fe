//! A minimal HTTP/1.1 wire-format library: a verified request parser and a
//! verified response serializer.
//!
//! The library turns a raw byte buffer into a structured `Request` and turns
//! a structured `Response` back into exact wire bytes. Sockets, files and
//! routing belong to the surrounding program; the library only computes over
//! byte buffers handed to it.

pub mod grammar;
pub mod headers;
pub mod http;
pub mod laws;
pub mod render;
pub mod ser;
pub mod wire;
