//! What a connection worker makes of each read on its socket.

use vstd::prelude::*;
use crate::addr::Addr;
use crate::relay::Event;

verus! {

/// Bytes asked for in one read.
pub const CHUNK_SIZE: usize = 64;

/// The event that a read on the connection of `from` gives: `read` is
/// `Some(n)` when the read filled the first `n` bytes of `buf`, `None` when it
/// failed. Data comes of a read of at least one byte; an empty read (the peer
/// closed) or a failed one ends the connection.
pub fn event_from_read(from: Addr, buf: &[u8], read: Option<usize>) -> (r: Event)
    requires
        read matches Some(n) ==> n <= buf@.len(),
    ensures
        match read {
            Some(n) if n > 0 => r matches Event::DataReceived(a, bytes) && a == from && bytes@
                == buf@.subrange(0, n as int),
            _ => r == Event::Disconnected(from),
        },
{
    match read {
        Some(n) => {
            if n == 0 {
                return Event::Disconnected(from);
            }
            let mut bytes: Vec<u8> = Vec::new();
            let mut i: usize = 0;
            while i < n
                invariant
                    n <= buf@.len(),
                    i <= n,
                    bytes@ == buf@.subrange(0, i as int),
                decreases n - i,
            {
                bytes.push(buf[i]);
                i += 1;
                assert(bytes@ =~= buf@.subrange(0, i as int));
            }
            Event::DataReceived(from, bytes)
        },
        None => Event::Disconnected(from),
    }
}

} // verus!
