//! The client-facing intake: the listening port and the FIFO of parsed
//! client requests drained by the primary's state machine. The TCP listener
//! itself lives outside the library and feeds this queue.

use vstd::prelude::*;
use crate::message::Request;

verus! {

/// Holds the intake port and the pending client requests, oldest first.
pub struct ClientRequestHandler {
    /// TCP port the external listener binds.
    pub port: u16,
    /// FIFO of pending client requests.
    pub client_requests: Vec<Request>,
}

impl ClientRequestHandler {
    /// A handler for `port` with an empty queue.
    pub fn new(port: u16) -> (r: ClientRequestHandler)
        ensures
            r.port == port,
            r.client_requests@.len() == 0,
    {
        ClientRequestHandler { port, client_requests: Vec::new() }
    }

    /// The configured port.
    pub fn port(&self) -> (r: u16)
        ensures
            r == self.port,
    {
        self.port
    }

    /// Enqueues a parsed client request, newest last.
    pub fn push_request(&mut self, request: Request)
        ensures
            final(self).client_requests@ == old(self).client_requests@.push(request),
            final(self).port == old(self).port,
    {
        self.client_requests.push(request);
    }

    /// Dequeues the oldest pending request.
    pub fn pop_request(&mut self) -> (r: Option<Request>)
        ensures
            old(self).client_requests@.len() == 0 ==> r is None && *final(self) == *old(self),
            old(self).client_requests@.len() > 0 ==> match r {
                Some(q) => q == old(self).client_requests@[0] && final(self).client_requests@
                    == old(self).client_requests@.subrange(
                    1,
                    old(self).client_requests@.len() as int,
                ),
                None => false,
            },
            final(self).port == old(self).port,
    {
        if self.client_requests.len() == 0 {
            None
        } else {
            let q = self.client_requests.remove(0);
            proof {
                assert(self.client_requests@ =~= old(self).client_requests@.subrange(
                    1,
                    old(self).client_requests@.len() as int,
                ));
            }
            Some(q)
        }
    }
}

} // verus!
