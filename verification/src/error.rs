use vstd::prelude::*;

verus! {

/// The failure conditions of the handshake readers and decoders. Every read
/// or decode operation returns its value or exactly one of these; an error is
/// fatal to the operation that raised it and nothing partial is returned.
#[derive(Clone, Copy, Debug, PartialEq, Eq)]
pub enum ProbeError {
    /// A line ran past the caller's length limit before its CR LF terminator.
    LineTooLong,
    /// A line feed arrived without a carriage return directly before it.
    InvalidLineEnding,
    /// The stream ended before the bytes an operation needs were available.
    UnexpectedEndOfStream,
    /// Bytes that should decode as UTF-8 text do not.
    InvalidEncoding,
    /// Too many lines came ahead of the server identification line.
    TooManyLines,
    /// The packet carries a message type other than SSH_MSG_KEXINIT.
    UnexpectedMessage,
    /// The declared packet length is over the sanity ceiling.
    PacketTooLarge,
}

} // verus!
