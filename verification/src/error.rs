use vstd::prelude::*;

verus! {

/// Why an exchange failed. `E` is the transport's own error type.
#[derive(Debug)]
pub enum HttpError<E> {
    /// The transport failed to connect, read or write. Its error is passed
    /// on as it came.
    Transport(E),
    /// The transport took no bytes when it was asked to write, which means
    /// that the stream is closed; or it reported more bytes than it was
    /// offered or given room for, which no working stream does.
    Device,
    /// The received bytes do not give a response: the head is incomplete or
    /// malformed, has too many headers or no status code, or is longer than
    /// what the exchange received.
    Protocol,
}

} // verus!
