//! A simple JSON-RPC client compatible with OVS unixctl.
//!
//! The client owns a [`Transport`], connects lazily on the first call,
//! assigns strictly increasing request ids starting at 1, encodes requests
//! with the verified codec, and correlates every reply against the id of
//! the one outstanding request.

use vstd::prelude::*;

use crate::codec;
use crate::error::Error;

verus! {

/// A JSON-RPC request.
#[derive(Debug)]
pub struct Request {
    /// The name of the RPC call.
    pub method: String,
    /// Parameters to the RPC call.
    pub params: Vec<String>,
    /// Identifier for this request, which should appear in the response.
    pub id: usize,
}

/// A JSON-RPC response object.
#[derive(Debug, Clone)]
pub struct Response {
    /// The result of the request.
    pub result: Option<String>,
    /// An error if it occurred.
    pub error: Option<String>,
    /// Identifier for this response. It should match that of the
    /// associated request.
    pub id: Option<usize>,
}

/// A connection-oriented carrier of JSON documents.
///
/// An implementation connects to one peer and then sends and receives
/// whole JSON documents as text, one per message. A transport must not
/// retry or reconnect on its own, and its failures are transport-level:
/// `Socket` or `Timeout`, never a protocol or command classification.
pub trait Transport {
    /// Establishes the connection to the peer.
    fn connect(&mut self) -> (r: Result<(), Error>)
        ensures
            r matches Err(e) ==> e is Socket || e is Timeout,
    ;

    /// Sends one JSON document.
    fn send_text(&mut self, msg: &str) -> (r: Result<(), Error>)
        ensures
            r matches Err(e) ==> e is Socket || e is Timeout,
    ;

    /// Receives one complete JSON document, blocking until it is there.
    fn recv_text(&mut self) -> (r: Result<String, Error>)
        ensures
            r matches Err(e) ==> e is Socket || e is Timeout,
    ;
}

/// Accepts a response only if it carries exactly the awaited id: a reply
/// without an id, or with any other id, is a protocol error and the
/// response is not returned.
pub fn correlate(expected: usize, resp: Response) -> (r: Result<Response, Error>)
    ensures
        resp.id is None ==> (r matches Err(e) && e is Protocol),
        (resp.id matches Some(i) && i != expected) ==> (r matches Err(e) && e is Protocol),
        resp.id == Some(expected) ==> (r matches Ok(out) && out == resp),
{
    match resp.id {
        None => Err(Error::Protocol(String::from_str("no id present in response"))),
        Some(i) => {
            if i != expected {
                Err(Error::Protocol(String::from_str("response id does not match request id")))
            } else {
                Ok(resp)
            }
        },
    }
}

/// The parameter list as a `Command` error reports it: the parameters
/// joined by `", "`.
pub open spec fn spec_params_text(ps: Seq<Seq<char>>) -> Seq<char>
    decreases ps.len(),
{
    if ps.len() == 0 {
        Seq::empty()
    } else if ps.len() == 1 {
        ps[0]
    } else {
        ps[0] + ", "@ + spec_params_text(ps.skip(1))
    }
}

proof fn lemma_params_text_snoc(ps: Seq<Seq<char>>, p: Seq<char>)
    ensures
        ps.len() == 0 ==> spec_params_text(ps.push(p)) == p,
        ps.len() > 0 ==> spec_params_text(ps.push(p)) == spec_params_text(ps) + ", "@ + p,
    decreases ps.len(),
{
    if ps.len() == 0 {
        assert(spec_params_text(ps.push(p)) == ps.push(p)[0]);
    } else if ps.len() == 1 {
        assert(ps.push(p).skip(1) =~= seq![p]);
        assert(spec_params_text(ps.push(p)) == ps.push(p)[0] + ", "@ + spec_params_text(
            ps.push(p).skip(1),
        ));
        assert(spec_params_text(seq![p]) == p);
        assert(ps.push(p)[0] == ps[0]);
        assert(spec_params_text(ps.push(p)) =~= spec_params_text(ps) + ", "@ + p);
    } else {
        assert(ps.push(p).skip(1) =~= ps.skip(1).push(p));
        lemma_params_text_snoc(ps.skip(1), p);
        assert(spec_params_text(ps.push(p)) == ps.push(p)[0] + ", "@ + spec_params_text(
            ps.push(p).skip(1),
        ));
        assert(ps.push(p)[0] == ps[0]);
        assert(spec_params_text(ps) == ps[0] + ", "@ + spec_params_text(ps.skip(1)));
        assert(spec_params_text(ps.push(p)) =~= spec_params_text(ps) + ", "@ + p);
    }
}

/// Formats a parameter list for diagnostics, joined by `", "`.
pub fn params_text(params: &Vec<String>) -> (s: String)
    ensures
        s@ == spec_params_text(params.deep_view()),
{
    let mut out = String::new();
    let n = params.len();
    let mut i: usize = 0;
    while i < n
        invariant
            n == params.len(),
            i <= n,
            out@ == spec_params_text(params.deep_view().subrange(0, i as int)),
        decreases n - i,
    {
        if i > 0 {
            out.append(", ");
        }
        out.append(params[i].as_str());
        proof {
            lemma_params_text_snoc(
                params.deep_view().subrange(0, i as int),
                params.deep_view()[i as int],
            );
            assert(params.deep_view().subrange(0, i + 1 as int) =~= params.deep_view().subrange(
                0,
                i as int,
            ).push(params.deep_view()[i as int]));
            assert(out@ =~= spec_params_text(params.deep_view().subrange(0, i + 1 as int)));
        }
        i += 1;
    }
    proof {
        assert(params.deep_view().subrange(0, n as int) =~= params.deep_view());
    }
    out
}

/// The protocol-level payload of one command's response: a response
/// carrying no result text is a protocol error; otherwise the daemon's
/// text is handed through unchanged.
pub fn require_result(resp: Response) -> (r: Result<String, Error>)
    ensures
        resp.result is None ==> (r matches Err(e) && e is Protocol),
        resp.result matches Some(t) ==> (r matches Ok(out) && out == t),
{
    match resp.result {
        Some(t) => Ok(t),
        None => Err(Error::Protocol(String::from_str("expected result"))),
    }
}

/// Classifies a correlated response for one command: a response whose
/// error field is present becomes a `Command` failure carrying the
/// method, the formatted parameter list and the daemon's error text
/// verbatim; any other response is returned unchanged.
pub fn command_outcome(method: &str, params: &Vec<String>, resp: Response) -> (r: Result<
    Response,
    Error,
>)
    ensures
        resp.error is None ==> (r matches Ok(out) && out == resp),
        resp.error matches Some(t) ==> r matches Err(e) && e matches Error::Command {
            cmd,
            params: p,
            error,
        } && cmd@ == method@ && p@ == spec_params_text(params.deep_view()) && error@ == t@,
{
    match resp.error {
        Some(t) => Err(
            Error::Command { cmd: method.to_owned(), params: params_text(params), error: t },
        ),
        None => Ok(
            Response { result: resp.result, error: None, id: resp.id },
        ),
    }
}

/// JSON-RPC client over some transport.
pub struct Client<T: Transport> {
    transport: T,
    connected: bool,
    last_id: usize,
    issued: Ghost<Seq<usize>>,
}

impl<T: Transport> Client<T> {
    /// The ids handed out so far, in order.
    pub closed spec fn ids(self) -> Seq<usize> {
        self.issued@
    }

    /// The id the next request will carry.
    pub closed spec fn next_id(self) -> usize {
        self.last_id
    }

    /// Whether the transport has been connected. The client starts
    /// disconnected, connects lazily on the first exchange, and never
    /// disconnects again: a failure leaves the state as it was.
    pub closed spec fn is_connected(self) -> bool {
        self.connected
    }

    /// Ids are handed out consecutively from 1: the k-th issued id is
    /// k + 1, and the next one continues the sequence.
    pub closed spec fn wf(self) -> bool {
        &&& self.last_id as int == self.issued@.len() + 1
        &&& forall|k: int| 0 <= k < self.issued@.len() ==> self.issued@[k] as int == k + 1
    }

    /// Another id can still be allocated without exhausting `usize`.
    pub open spec fn can_issue(self) -> bool {
        self.next_id() < usize::MAX
    }

    /// Creates a new client with the given transport. Nothing is sent
    /// until the first call; ids start at 1.
    pub fn new(transport: T) -> (c: Client<T>)
        ensures
            c.wf(),
            c.ids() == Seq::<usize>::empty(),
            c.next_id() == 1,
            !c.is_connected(),
    {
        Client { transport, connected: false, last_id: 1, issued: Ghost(Seq::empty()) }
    }

    /// Whether another request id can still be allocated; true until
    /// `usize` is exhausted.
    pub fn can_allocate(&self) -> (r: bool)
        ensures
            r == self.can_issue(),
    {
        self.last_id < usize::MAX
    }

    /// Builds a request with the given method and parameters.
    ///
    /// It internally deals with incrementing the id.
    fn build_request(&mut self, method: &str, params: Vec<String>) -> (r: Request)
        requires
            old(self).wf(),
            old(self).can_issue(),
        ensures
            final(self).wf(),
            r.id == old(self).next_id(),
            r.method@ == method@,
            r.params == params,
            final(self).ids() == old(self).ids().push(r.id),
            final(self).next_id() == old(self).next_id() + 1,
            final(self).is_connected() == old(self).is_connected(),
    {
        let id = self.last_id;
        self.last_id = self.last_id + 1;
        proof {
            self.issued@ = self.issued@.push(id);
        }
        Request { method: method.to_owned(), params, id }
    }

    /// Sends a request and returns the correlated response.
    ///
    /// Connects lazily on the first use. A reply that does not decode is
    /// a serialization error; a reply without an id, or with an id other
    /// than the request's, is a protocol error and is not returned, so a
    /// returned response always carries exactly the request's id. The
    /// daemon's error field, if any, is left for the caller to inspect.
    pub fn send_request(&mut self, request: &Request) -> (r: Result<Response, Error>)
        requires
            old(self).wf(),
        ensures
            final(self).wf(),
            final(self).ids() == old(self).ids(),
            final(self).next_id() == old(self).next_id(),
            old(self).is_connected() ==> final(self).is_connected(),
            !final(self).is_connected() ==> !old(self).is_connected() && (r matches Err(e) && (
            e is Socket || e is Timeout)),
            r matches Ok(resp) ==> resp.id == Some(request.id),
            r matches Err(e) ==> !(e is Command),
    {
        if !self.connected {
            match self.transport.connect() {
                Ok(u) => {
                    self.connected = true;
                },
                Err(e) => {
                    return Err(e);
                },
            }
        }
        let text = codec::encode_request(request.method.as_str(), &request.params, request.id);
        match self.transport.send_text(text.as_str()) {
            Ok(u) => {},
            Err(e) => {
                return Err(e);
            },
        }
        let reply = match self.transport.recv_text() {
            Ok(t) => t,
            Err(e) => {
                return Err(e);
            },
        };
        let fields = match codec::parse_response(reply.as_str()) {
            Ok(f) => f,
            Err(e) => {
                return Err(e);
            },
        };
        let resp = Response { result: fields.0, error: fields.1, id: fields.2 };
        correlate(request.id, resp)
    }

    /// Calls a method without arguments and returns the response.
    ///
    /// A response whose error field is present becomes a `Command`
    /// failure carrying this method name and an empty parameter list, so
    /// a returned response never carries an error.
    pub fn call(&mut self, method: &str) -> (r: Result<Response, Error>)
        requires
            old(self).wf(),
            old(self).can_issue(),
        ensures
            final(self).wf(),
            final(self).ids() == old(self).ids().push(old(self).next_id()),
            final(self).next_id() == old(self).next_id() + 1,
            old(self).is_connected() ==> final(self).is_connected(),
            !final(self).is_connected() ==> !old(self).is_connected() && (r matches Err(e) && (
            e is Socket || e is Timeout)),
            r matches Ok(resp) ==> resp.error is None && resp.id == Some(old(self).next_id()),
            r matches Err(e) ==> (e matches Error::Command { cmd, params, error } ==> cmd@
                == method@ && params@ == Seq::<char>::empty()),
    {
        let request = self.build_request(method, Vec::new());
        let response = match self.send_request(&request) {
            Ok(x) => x,
            Err(e) => {
                return Err(e);
            },
        };
        proof {
            assert(request.params.deep_view() =~= Seq::<Seq<char>>::empty());
            assert(spec_params_text(Seq::<Seq<char>>::empty()) == Seq::<char>::empty());
        }
        command_outcome(method, &request.params, response)
    }

    /// Calls a method with some arguments and returns the response.
    ///
    /// A response whose error field is present becomes a `Command`
    /// failure carrying this method name, the parameters joined by
    /// `", "`, and the daemon's error text verbatim.
    pub fn call_params(&mut self, method: &str, params: Vec<String>) -> (r: Result<
        Response,
        Error,
    >)
        requires
            old(self).wf(),
            old(self).can_issue(),
        ensures
            final(self).wf(),
            final(self).ids() == old(self).ids().push(old(self).next_id()),
            final(self).next_id() == old(self).next_id() + 1,
            old(self).is_connected() ==> final(self).is_connected(),
            !final(self).is_connected() ==> !old(self).is_connected() && (r matches Err(e) && (
            e is Socket || e is Timeout)),
            r matches Ok(resp) ==> resp.error is None && resp.id == Some(old(self).next_id()),
            r matches Err(e) ==> (e matches Error::Command { cmd, params: p, error } ==> cmd@
                == method@ && p@ == spec_params_text(params.deep_view())),
    {
        let request = self.build_request(method, params);
        let response = match self.send_request(&request) {
            Ok(x) => x,
            Err(e) => {
                return Err(e);
            },
        };
        command_outcome(method, &request.params, response)
    }
}

/// The ids a well-formed client has issued are strictly increasing,
/// begin at 1, and are never reused.
pub proof fn lemma_ids_strictly_increasing<T: Transport>(c: Client<T>)
    requires
        c.wf(),
    ensures
        forall|a: int, b: int| 0 <= a < b < c.ids().len() ==> c.ids()[a] < c.ids()[b],
        c.ids().len() > 0 ==> c.ids()[0] == 1,
        forall|k: int| 0 <= k < c.ids().len() ==> c.ids()[k] as int == k + 1,
{
}

} // verus!
