//! The decisions of a small HTTP and HTTPS forward proxy, without its I/O.
//!
//! The program around this library accepts connections, reads the first bytes of each,
//! asks the library what they mean, and then dials, writes and copies as it is told.

pub mod forward;
pub mod laws;
pub mod number;
pub mod plan;
pub mod request;
pub mod session;
pub mod settings;
pub mod text;
pub mod tls;
pub mod unicode;
pub mod url;
