use vstd::prelude::*;

verus! {

/// Top-level error of the library, grouping the error kinds by origin.
#[derive(Debug, PartialEq, Eq)]
pub enum Error {
    Parsing(ParsingError),
    Server(ServerError),
    Client(ClientError),
    /// An error of the underlying byte stream, detected by the caller that
    /// performs the reads and writes.
    IO,
}

/// Errors of the wire codec.
#[derive(Debug, PartialEq, Eq)]
pub enum ParsingError {
    /// A string field of a complete frame was not valid UTF-8.
    Utf8Error,
    /// Any other malformed input.
    Other,
}

/// Connection-scoped errors detected by the server-side framer.
#[derive(Debug, PartialEq, Eq)]
pub enum ServerError {
    /// The server was started without an address.
    NoAddress,
    /// The peer sent more bytes than the buffer cap permits without
    /// completing a frame.
    TooMuchData,
    /// The peer closed the connection while a partial frame was buffered.
    ConnectionResetByPeer,
    /// The shared store was unavailable.
    Database(DatabaseError),
    /// An error of the underlying byte stream.
    IO,
}

/// Errors of the store.
#[derive(Debug, PartialEq, Eq)]
pub enum DatabaseError {
    /// The internal synchronisation of the store failed.
    DbLock,
}

/// Connection-scoped errors detected by the client-side framer.
#[derive(Debug, PartialEq, Eq)]
pub enum ClientError {
    /// The server closed the connection before a complete reply arrived.
    ConnectionResetByPeer,
    /// The server sent more bytes than the receive buffer cap permits
    /// without completing a frame.
    TooMuchData,
}

} // verus!
