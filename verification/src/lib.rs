//! One HTTP/1.1 request at a time over a reliable byte stream: a writer
//! that collects small writes in a fixed buffer, and a client that puts a
//! request on the wire and parses the response it reads back.

pub mod client;
pub mod error;
pub mod head;
pub mod header;
pub mod response;
pub mod transport;
pub mod wire;
pub mod writer;

pub use client::Client;
pub use error::HttpError;
pub use header::Header;
pub use response::{Response, StatusCode};
pub use transport::Transport;
pub use writer::BufWriter;
