//! Requests whose operations are byte strings, replayed by one client.
use vstd::prelude::*;

verus! {

/// A client's request.
#[derive(Debug, Clone)]
pub struct Request {
    pub client_id: u32,
    pub client_seq: u64,
    pub op: Vec<u8>,
}

/// The answer to a request.
#[derive(Debug, Clone)]
pub struct Reply {
    pub client_seq: u64,
    pub res: Vec<u8>,
}

/// What clients and replicas tell each other.
#[derive(Debug, Clone)]
pub enum Message {
    Request(Request),
    Reply(Reply),
}

/// Turns encoded operations into requests of one client.
pub struct Replay {
    client_seq: u64,
}

impl View for Replay {
    type V = u64;

    closed spec fn view(&self) -> u64 {
        self.client_seq
    }
}

impl Replay {
    /// Nothing was replayed yet.
    pub fn new() -> (replay: Self)
        ensures
            replay@ == 0,
    {
        Replay { client_seq: 0 }
    }

    /// The request for the next operation, `None` when there are no numbers
    /// left.
    pub fn next_request(&mut self, op: Vec<u8>) -> (request: Option<Request>)
        ensures
            match request {
                Some(request) => {
                    &&& old(self)@ < u64::MAX
                    &&& final(self)@ == old(self)@ + 1
                    &&& request == Request { client_id: 0, client_seq: final(self)@, op }
                },
                None => old(self)@ == u64::MAX && final(self)@ == old(self)@,
            },
    {
        if self.client_seq == u64::MAX {
            return None;
        }
        self.client_seq = self.client_seq + 1;
        Some(Request { client_id: 0, client_seq: self.client_seq, op })
    }
}

} // verus!
