//! An in-memory transport: a scripted peer for exercising the client.

use vstd::prelude::*;

use crate::error::Error;
use crate::jsonrpc::Transport;

verus! {

/// A transport that records every document sent to it and replays a
/// fixed script of replies, front to back. It never fails to connect;
/// once the script is exhausted, receiving fails with a socket error.
#[derive(Debug)]
pub struct ScriptTransport {
    replies: Vec<String>,
    served: usize,
    sent: Vec<String>,
    connected: bool,
}

impl ScriptTransport {
    /// The replies not yet handed out.
    pub closed spec fn pending(self) -> Seq<Seq<char>> {
        if self.served <= self.replies.len() {
            self.replies.deep_view().skip(self.served as int)
        } else {
            Seq::empty()
        }
    }

    /// Every document sent so far, in order.
    pub closed spec fn sent_log(self) -> Seq<Seq<char>> {
        self.sent.deep_view()
    }

    /// A transport that will hand back the given replies, in order.
    pub fn new(replies: Vec<String>) -> (t: ScriptTransport)
        ensures
            t.pending() == replies.deep_view(),
            t.sent_log() == Seq::<Seq<char>>::empty(),
    {
        let t = ScriptTransport { replies, served: 0, sent: Vec::new(), connected: false };
        proof {
            assert(t.pending() =~= t.replies.deep_view());
            assert(t.sent_log() =~= Seq::<Seq<char>>::empty());
        }
        t
    }

    /// The documents sent so far.
    pub fn sent(&self) -> (v: &Vec<String>)
        ensures
            v.deep_view() == self.sent_log(),
    {
        &self.sent
    }
}

impl Transport for ScriptTransport {
    /// Connecting always succeeds and touches neither log nor script.
    fn connect(&mut self) -> (r: Result<(), Error>)
        ensures
            r is Ok,
            final(self).pending() == old(self).pending(),
            final(self).sent_log() == old(self).sent_log(),
    {
        self.connected = true;
        Ok(())
    }

    /// Sending always succeeds and appends the document to the log.
    fn send_text(&mut self, msg: &str) -> (r: Result<(), Error>)
        ensures
            r is Ok,
            final(self).sent_log() == old(self).sent_log().push(msg@),
            final(self).pending() == old(self).pending(),
    {
        self.sent.push(msg.to_owned());
        proof {
            assert(self.sent_log() =~= old(self).sent_log().push(msg@));
        }
        Ok(())
    }

    /// Receiving hands out the next scripted reply, front to back; an
    /// exhausted script is a socket error.
    fn recv_text(&mut self) -> (r: Result<String, Error>)
        ensures
            old(self).pending().len() > 0 ==> (r matches Ok(t) && t@ == old(self).pending()[0]
                && final(self).pending() == old(self).pending().skip(1)),
            old(self).pending().len() == 0 ==> (r matches Err(e) && e is Socket
                && final(self).pending() == old(self).pending()),
            final(self).sent_log() == old(self).sent_log(),
    {
        if self.served < self.replies.len() {
            let reply = self.replies[self.served].clone();
            self.served = self.served + 1;
            proof {
                assert(self.pending() =~= old(self).pending().skip(1));
                assert(reply@ == old(self).pending()[0]);
            }
            Ok(reply)
        } else {
            proof {
                assert(old(self).pending().len() == 0);
            }
            Err(Error::Socket(String::from_str("no further replies scripted")))
        }
    }
}

} // verus!
