//! The operations carried by a TCP service ring.
use vstd::prelude::*;

verus! {

/// One operation submitted to a TCP cell: on a socket named by a handle, with a
/// buffer to read out of or to write into.
#[derive(Debug, PartialEq, Eq)]
pub enum TcpOp<Endpoint, Socket, Read, Write> {
    Listen { port: u16 },
    Connect { to: Endpoint },
    Send { socket: Socket, payload: Read },
    Recv { socket: Socket, buffer: Write },
    Close(Socket),
}

/// What a TCP operation produced.
#[derive(Debug, PartialEq, Eq)]
pub enum TcpDone<Socket> {
    /// A socket that is listening, or one whose handshake finished.
    Opened(Socket),
    Sent(usize),
    /// Bytes taken from the stream; zero once the peer is done sending.
    Received(usize),
    Closed,
}

} // verus!
