use vstd::prelude::*;

verus! {

/// A reliable, ordered, duplex byte stream that blocks until it has read or
/// written.
///
/// Nothing is assumed of an implementation. What `read` and `write` return
/// is examined by the code that calls them: a count above the length of the
/// buffer is taken for a failure of the device.
pub trait Transport: Sized {
    /// What names the peer to connect to.
    type Address;

    /// What the stream reports when it fails.
    type Error;

    /// Opens a stream to `addr`.
    fn connect(addr: Self::Address) -> Result<Self, Self::Error>;

    /// Reads into `buf` and returns how many bytes were placed at its
    /// start. A count below the length of `buf` means that no more data
    /// will come.
    fn read(&mut self, buf: &mut [u8]) -> Result<usize, Self::Error>;

    /// Takes bytes from the start of `buf` and returns how many were taken.
    /// A count of zero means that the stream is closed.
    fn write(&mut self, buf: &[u8]) -> Result<usize, Self::Error>;
}

} // verus!
