//! The decisions of a connection: what to send after each request, and
//! when to stop. Sockets and threads are left to the caller.

use vstd::prelude::*;

use std::sync::Arc;

use vstd::slice::{slice_subrange, slice_to_vec};
use vstd::utf8::encode_utf8;

use crate::parse::Step;
use crate::request::{keeps_alive, lemma_request_decides_at_eof, request_at, ParseError, ParseFailure, Request};
use crate::response::{status_response, wire_bytes, with_text_spec, Response, ResponseView};
use crate::router::Router;

verus! {

/// Most requests answered on one connection.
pub const MAX_REQUESTS_PER_CONNECTION: usize = 1000;

/// Seconds a connection may stay silent before a read gives up.
pub const READ_TIMEOUT_SECS: u64 = 30;

/// The answer to a request that could not be parsed.
pub open spec fn error_response(e: ParseFailure) -> ResponseView {
    match e {
        ParseFailure::LineTooLong => with_text_spec(status_response(414), "414 request line too long"@),
        ParseFailure::HeadersTooLarge => with_text_spec(status_response(431), "431 headers too large"@),
        ParseFailure::TooManyHeaders => with_text_spec(status_response(431), "431 too many headers"@),
        ParseFailure::BodyTooLarge => with_text_spec(status_response(413), "413 body too large"@),
        ParseFailure::Malformed(m) => with_text_spec(status_response(400), "400 bad request: "@ + m),
        ParseFailure::Io(_) => with_text_spec(status_response(400), "400 bad request"@),
        ParseFailure::ConnectionClosed => with_text_spec(status_response(400), "400 bad request"@),
    }
}

/// The answer to a request that could not be parsed: 414 for a long line,
/// 431 for oversized or too many headers, 413 for a large body, 400 otherwise.
pub fn response_for_parse_error(err: &ParseError) -> (r: Response)
    ensures
        r@ == error_response(err@),
{
    match err {
        ParseError::LineTooLong => Response::new(414).with_text("414 request line too long"),
        ParseError::HeadersTooLarge => Response::new(431).with_text("431 headers too large"),
        ParseError::TooManyHeaders => Response::new(431).with_text("431 too many headers"),
        ParseError::BodyTooLarge => Response::new(413).with_text("413 body too large"),
        ParseError::Malformed(msg) => Response::bad_request(msg.as_str()),
        ParseError::Io(_) => Response::new(400).with_text("400 bad request"),
        ParseError::ConnectionClosed => Response::new(400).with_text("400 bad request"),
    }
}

/// What a connection does next.
pub enum Reply {
    /// Write `bytes`; then read the next request if `keep_open`, else close.
    Send { bytes: Vec<u8>, keep_open: bool },
    /// Close without writing.
    Close,
}

/// An HTTP server around a router.
pub struct Server {
    router: Arc<Router>,
}

impl Server {
    /// The router that answers requests.
    pub closed spec fn routes(&self) -> Router {
        *self.router
    }

    /// A server that answers with `router`.
    pub fn new(router: Router) -> (s: Server)
        ensures
            s.routes() == router,
    {
        Server { router: Arc::new(router) }
    }

    /// The router, shared with the connections.
    pub fn router(&self) -> (r: &Arc<Router>)
        ensures
            **r == self.routes(),
    {
        &self.router
    }

    /// After a response: write it, keeping the connection open exactly when
    /// the request asked for that.
    pub fn after_response(resp: &Response, keep_alive: bool) -> (r: Reply)
        ensures
            r matches Reply::Send { bytes, keep_open } && bytes@ == wire_bytes(resp@, keep_alive)
                && keep_open == keep_alive,
    {
        Reply::Send { bytes: resp.to_bytes(keep_alive), keep_open: keep_alive }
    }

    /// After a request that could not be parsed: a connection closed before
    /// a request is closed quietly; any other failure is answered (see
    /// `response_for_parse_error`) and then the connection is closed.
    pub fn after_parse_error(err: &ParseError) -> (r: Reply)
        ensures
            match err@ {
                ParseFailure::ConnectionClosed => r is Close,
                e => r matches Reply::Send { bytes, keep_open } && bytes@ == wire_bytes(
                    error_response(e),
                    false,
                ) && !keep_open,
            },
    {
        match err {
            ParseError::ConnectionClosed => Reply::Close,
            _ => Reply::Send { bytes: response_for_parse_error(err).to_bytes(false), keep_open: false },
        }
    }
}

} // verus!

verus! {

/// The bytes of a connection that have arrived and are not used yet, and
/// whether the peer has finished sending.
pub struct Connection {
    pending: Vec<u8>,
    finished: bool,
}

impl Connection {
    /// The bytes received and not yet used by a request.
    pub closed spec fn pending_bytes(&self) -> Seq<u8> {
        self.pending@
    }

    /// Whether the peer has finished sending.
    pub closed spec fn is_finished(&self) -> bool {
        self.finished
    }

    /// A connection on which nothing has arrived yet.
    pub fn new() -> (c: Connection)
        ensures
            c.pending_bytes() == Seq::<u8>::empty(),
            !c.is_finished(),
    {
        Connection { pending: Vec::new(), finished: false }
    }

    /// Whether the peer has finished sending.
    pub fn finished(&self) -> (r: bool)
        ensures
            r == self.is_finished(),
    {
        self.finished
    }

    /// Records bytes read from the peer; an empty read means that the peer
    /// has finished sending.
    pub fn receive(&mut self, bytes: &[u8])
        ensures
            final(self).pending_bytes() == old(self).pending_bytes() + bytes@,
            final(self).is_finished() == (old(self).is_finished() || bytes@.len() == 0),
    {
        if bytes.len() == 0 {
            self.finished = true;
        }
        let ghost before = self.pending@;
        let mut i: usize = 0;
        while i < bytes.len()
            invariant
                i <= bytes@.len(),
                self.pending@ == before + bytes@.subrange(0, i as int),
                self.finished == (old(self).finished || bytes@.len() == 0),
            decreases bytes@.len() - i,
        {
            self.pending.push(bytes[i]);
            assert(self.pending@ =~= before + bytes@.subrange(0, i + 1));
            i = i + 1;
        }
        assert(bytes@.subrange(0, bytes@.len() as int) == bytes@);
    }

    /// The next request on the connection, once the bytes received decide
    /// it (see `request_at`); `None` means: read more. A request's bytes
    /// are used up, so the following call starts at the next request.
    pub fn next_request(&mut self) -> (r: Option<Result<Request, ParseError>>)
        ensures
            final(self).is_finished() == old(self).is_finished(),
            match request_at(old(self).pending_bytes(), old(self).is_finished()) {
                Step::Done(v, n) => r matches Some(Ok(req)) && req@ == v
                    && final(self).pending_bytes() == old(self).pending_bytes().subrange(n, old(self).pending_bytes().len() as int),
                Step::Fail(e) => r matches Some(Err(err)) && err@ == e && final(self).pending_bytes()
                    == old(self).pending_bytes(),
                Step::More => r is None && final(self).pending_bytes() == old(self).pending_bytes(),
            },
    {
        let outcome = if self.finished {
            Some(Request::parse(self.pending.as_slice()))
        } else {
            Request::parse_prefix(self.pending.as_slice())
        };
        match outcome {
            Some(Ok((req, used))) => {
                proof {
                    crate::request::lemma_request_end(self.pending@, self.finished);
                }
                let rest = slice_to_vec(slice_subrange(self.pending.as_slice(), used, self.pending.len()));
                self.pending = rest;
                Some(Ok(req))
            },
            Some(Err(e)) => Some(Err(e)),
            None => None,
        }
    }
}

} // verus!

verus! {

/// What became of one request read on a connection.
pub ghost enum Outcome {
    /// It was parsed and answered with the response; the flag says whether
    /// the request asked to keep the connection open (`keeps_alive`).
    Answered(ResponseView, bool),
    /// It could not be parsed.
    Refused(ParseFailure),
}

/// The bytes written for an outcome, if any: the response (or the error
/// response, with the connection closing); nothing for a connection that
/// closed before a request.
pub open spec fn reply_to(o: Outcome) -> Option<Seq<u8>> {
    match o {
        Outcome::Answered(r, keep_alive) => Some(wire_bytes(r, keep_alive)),
        Outcome::Refused(ParseFailure::ConnectionClosed) => None,
        Outcome::Refused(e) => Some(wire_bytes(error_response(e), false)),
    }
}

/// Whether the connection stays open after an outcome.
pub open spec fn stays_open(o: Outcome) -> bool {
    o matches Outcome::Answered(_, true)
}

/// Whether the connection is still open after these outcomes.
pub open spec fn open_after(outcomes: Seq<Outcome>) -> bool {
    forall|i: int| 0 <= i < outcomes.len() ==> stays_open(#[trigger] outcomes[i])
}

/// The outcomes a connection can go through: at most
/// `MAX_REQUESTS_PER_CONNECTION`, each but the last leaving it open.
pub open spec fn possible_outcomes(outcomes: Seq<Outcome>) -> bool {
    &&& outcomes.len() <= MAX_REQUESTS_PER_CONNECTION
    &&& forall|i: int| 0 <= i < outcomes.len() - 1 ==> stays_open(#[trigger] outcomes[i])
}

/// The bytes written for these outcomes, in order.
pub open spec fn replies(outcomes: Seq<Outcome>) -> Seq<Seq<u8>>
    decreases outcomes.len(),
{
    if outcomes.len() == 0 {
        Seq::empty()
    } else {
        let before = replies(outcomes.drop_last());
        match reply_to(outcomes.last()) {
            Some(b) => before.push(b),
            None => before,
        }
    }
}

/// The request loop of one connection: how many requests it has taken,
/// whether it is open, and what became of each request.
pub struct Session {
    served: usize,
    open: bool,
    outcomes: Ghost<Seq<Outcome>>,
}

impl Session {
    /// What became of the requests taken so far, in order.
    pub closed spec fn history(&self) -> Seq<Outcome> {
        self.outcomes@
    }

    #[verifier::type_invariant]
    spec fn consistent(self) -> bool {
        &&& self.served == self.outcomes@.len()
        &&& possible_outcomes(self.outcomes@)
        &&& self.open ==> open_after(self.outcomes@)
    }

    /// A connection that has taken no request.
    pub fn new() -> (s: Session)
        ensures
            s.history() == Seq::<Outcome>::empty(),
            s.can_take_more(),
    {
        Session { served: 0, open: true, outcomes: Ghost(Seq::empty()) }
    }

    /// Whether the connection may take another request: it is open and
    /// has taken fewer than `MAX_REQUESTS_PER_CONNECTION`.
    pub closed spec fn can_take_more(&self) -> bool {
        self.open && self.served < MAX_REQUESTS_PER_CONNECTION
    }

    /// Whether another request may be read (see `can_take_more`).
    pub fn may_serve_another(&self) -> (r: bool)
        ensures
            r == self.can_take_more(),
            r ==> self.history().len() < MAX_REQUESTS_PER_CONNECTION && open_after(self.history()),
    {
        proof {
            use_type_invariant(self);
        }
        self.open && self.served < MAX_REQUESTS_PER_CONNECTION
    }

    /// Takes a parsed request and its response: the response is written,
    /// and the connection stays open exactly when the request asked for it
    /// (see `keeps_alive`).
    pub fn answered(&mut self, req: &Request, resp: &Response) -> (r: Reply)
        requires
            old(self).can_take_more(),
        ensures
            final(self).history() == old(self).history().push(
                Outcome::Answered(resp@, keeps_alive(req@)),
            ),
            possible_outcomes(final(self).history()),
            r matches Reply::Send { bytes, keep_open } && bytes@ == wire_bytes(resp@, keeps_alive(req@))
                && keep_open == keeps_alive(req@),
            final(self).can_take_more() == (keeps_alive(req@) && final(self).history().len()
                < MAX_REQUESTS_PER_CONNECTION),
    {
        proof {
            use_type_invariant(&*self);
        }
        let keep_alive = req.keep_alive();
        let r = Server::after_response(resp, keep_alive);
        let ghost next = self.outcomes@.push(Outcome::Answered(resp@, keep_alive));
        proof {
            assert forall|i: int| 0 <= i < next.len() - 1 implies stays_open(#[trigger] next[i]) by {
                assert(next[i] == self.outcomes@[i]);
            }
        }
        *self = Session { served: self.served + 1, open: keep_alive, outcomes: Ghost(next) };
        r
    }

    /// Takes a request that could not be parsed: it is answered as
    /// `Server::after_parse_error` says, and the connection closes.
    pub fn refused(&mut self, err: &ParseError) -> (r: Reply)
        requires
            old(self).can_take_more(),
        ensures
            final(self).history() == old(self).history().push(Outcome::Refused(err@)),
            possible_outcomes(final(self).history()),
            match reply_to(Outcome::Refused(err@)) {
                Some(b) => r matches Reply::Send { bytes, keep_open } && bytes@ == b && !keep_open,
                None => r is Close,
            },
            !final(self).can_take_more(),
    {
        proof {
            use_type_invariant(&*self);
        }
        let r = Server::after_parse_error(err);
        let ghost next = self.outcomes@.push(Outcome::Refused(err@));
        proof {
            assert forall|i: int| 0 <= i < next.len() - 1 implies stays_open(#[trigger] next[i]) by {
                assert(next[i] == self.outcomes@[i]);
            }
        }
        *self = Session { served: self.served + 1, open: false, outcomes: Ghost(next) };
        r
    }

    /// The reply could not be written: the connection closes.
    pub fn write_failed(&mut self)
        ensures
            final(self).history() == old(self).history(),
            possible_outcomes(final(self).history()),
            !final(self).can_take_more(),
    {
        proof {
            use_type_invariant(&*self);
        }
        *self = Session { served: self.served, open: false, outcomes: self.outcomes };
    }
}

/// What a connection writes, whatever its requests: at most
/// `MAX_REQUESTS_PER_CONNECTION` replies, in the order of the requests;
/// every request but the last was answered with its response on a
/// connection kept open, and the last request's reply (its response, or
/// the error response, or nothing for a connection closed before a
/// request) is the last thing written.
pub proof fn lemma_session_replies(outcomes: Seq<Outcome>)
    requires
        possible_outcomes(outcomes),
    ensures
        replies(outcomes).len() <= outcomes.len() <= MAX_REQUESTS_PER_CONNECTION,
        outcomes.len() > 0 ==> replies(outcomes) == outcomes.drop_last().map_values(
            |o: Outcome| wire_bytes(o->Answered_0, o->Answered_1),
        ) + match reply_to(outcomes.last()) {
            Some(b) => seq![b],
            None => Seq::empty(),
        },
        open_after(outcomes) ==> replies(outcomes) == outcomes.map_values(
            |o: Outcome| wire_bytes(o->Answered_0, o->Answered_1),
        ),
{
    lemma_replies_len(outcomes);
    if open_after(outcomes) {
        lemma_replies_all_open(outcomes);
    }
    if outcomes.len() > 0 {
        let before = outcomes.drop_last();
        assert forall|i: int| 0 <= i < before.len() implies stays_open(#[trigger] before[i]) by {
            assert(before[i] == outcomes[i]);
        }
        lemma_replies_all_open(before);
        match reply_to(outcomes.last()) {
            Some(b) => {
                assert(replies(outcomes) =~= before.map_values(
                    |o: Outcome| wire_bytes(o->Answered_0, o->Answered_1),
                ) + seq![b]);
            },
            None => {
                assert(replies(outcomes) =~= before.map_values(
                    |o: Outcome| wire_bytes(o->Answered_0, o->Answered_1),
                ) + Seq::empty());
            },
        }
    }
}

proof fn lemma_replies_len(outcomes: Seq<Outcome>)
    ensures
        replies(outcomes).len() <= outcomes.len(),
    decreases outcomes.len(),
{
    if outcomes.len() > 0 {
        lemma_replies_len(outcomes.drop_last());
    }
}

proof fn lemma_replies_all_open(outcomes: Seq<Outcome>)
    requires
        open_after(outcomes),
    ensures
        replies(outcomes) == outcomes.map_values(|o: Outcome| wire_bytes(o->Answered_0, o->Answered_1)),
    decreases outcomes.len(),
{
    if outcomes.len() > 0 {
        let before = outcomes.drop_last();
        assert forall|i: int| 0 <= i < before.len() implies stays_open(#[trigger] before[i]) by {
            assert(before[i] == outcomes[i]);
        }
        lemma_replies_all_open(before);
        assert(stays_open(outcomes[outcomes.len() - 1]));
        assert(replies(outcomes) =~= outcomes.map_values(
            |o: Outcome| wire_bytes(o->Answered_0, o->Answered_1),
        ));
    }
}

} // verus!

verus! {

/// What becomes of the requests of a whole stream `s`, read one after
/// another (each from where the previous one ended, see `request_at`),
/// when the `i`-th parsed request is answered with `answers[i]`: reading
/// stops at the first request that could not be parsed, after a request
/// that closes the connection, or once `budget` requests have been taken.
pub open spec fn stream_outcomes(s: Seq<u8>, answers: Seq<ResponseView>, budget: nat) -> Seq<
    Outcome,
>
    decreases budget,
{
    if budget == 0 {
        Seq::empty()
    } else {
        match request_at(s, true) {
            Step::Done(v, n) => {
                let o = Outcome::Answered(answers[0], keeps_alive(v));
                if keeps_alive(v) {
                    seq![o] + stream_outcomes(
                        s.subrange(n, s.len() as int),
                        answers.drop_first(),
                        (budget - 1) as nat,
                    )
                } else {
                    seq![o]
                }
            },
            Step::Fail(e) => seq![Outcome::Refused(e)],
            Step::More => Seq::empty(),
        }
    }
}

proof fn lemma_replies_append(a: Seq<Outcome>, b: Seq<Outcome>)
    ensures
        replies(a + b) == replies(a) + replies(b),
    decreases b.len(),
{
    if b.len() == 0 {
        assert(a + b =~= a);
        assert(replies(a) + replies(b) =~= replies(a));
    } else {
        lemma_replies_append(a, b.drop_last());
        assert((a + b).drop_last() =~= a + b.drop_last());
        assert((a + b).last() == b.last());
        match reply_to(b.last()) {
            Some(x) => {
                assert(replies(a + b) =~= replies(a) + replies(b));
            },
            None => {},
        }
    }
}

proof fn lemma_stream_outcomes_possible(s: Seq<u8>, answers: Seq<ResponseView>, budget: nat)
    ensures
        stream_outcomes(s, answers, budget).len() <= budget,
        forall|i: int|
            0 <= i < stream_outcomes(s, answers, budget).len() - 1 ==> stays_open(
                #[trigger] stream_outcomes(s, answers, budget)[i],
            ),
    decreases budget,
{
    if budget > 0 {
        if let Step::Done(v, n) = request_at(s, true) {
            if keeps_alive(v) {
                let rest = s.subrange(n, s.len() as int);
                lemma_stream_outcomes_possible(rest, answers.drop_first(), (budget - 1) as nat);
                let o = Outcome::Answered(answers[0], keeps_alive(v));
                let all = stream_outcomes(s, answers, budget);
                assert forall|i: int| 0 <= i < all.len() - 1 implies stays_open(#[trigger] all[i]) by {
                    if i > 0 {
                        assert(all[i] == stream_outcomes(
                            rest,
                            answers.drop_first(),
                            (budget - 1) as nat,
                        )[i - 1]);
                    }
                }
            }
        }
    }
}

/// What a connection writes for a whole stream of requests, read one after
/// another from where the previous one ended. The first request is read
/// from the start of the stream; if it is parsed and keeps the connection
/// open, its response is written and the rest of the stream is served the
/// same way; if it closes the connection, its response is the last thing
/// written; a stream that ends before a request gets nothing; any other
/// request that cannot be parsed gets its error response, and nothing
/// follows. At most `MAX_REQUESTS_PER_CONNECTION` responses are written,
/// and the outcomes are ones a `Session` goes through.
pub proof fn lemma_connection_writes(s: Seq<u8>, answers: Seq<ResponseView>, budget: nat)
    requires
        0 < budget <= MAX_REQUESTS_PER_CONNECTION,
    ensures
        possible_outcomes(stream_outcomes(s, answers, budget)),
        replies(stream_outcomes(s, answers, budget)).len() <= budget,
        replies(stream_outcomes(s, answers, budget)) == match request_at(s, true) {
            Step::Done(v, n) => if keeps_alive(v) {
                seq![wire_bytes(answers[0], true)] + replies(
                    stream_outcomes(s.subrange(n, s.len() as int), answers.drop_first(), (budget - 1) as nat),
                )
            } else {
                seq![wire_bytes(answers[0], false)]
            },
            Step::Fail(ParseFailure::ConnectionClosed) => Seq::empty(),
            Step::Fail(e) => seq![wire_bytes(error_response(e), false)],
            Step::More => Seq::empty(),
        },
{
    lemma_stream_outcomes_possible(s, answers, budget);
    lemma_replies_len(stream_outcomes(s, answers, budget));
    lemma_request_decides_at_eof(s);
    match request_at(s, true) {
        Step::Done(v, n) => {
            let o = Outcome::Answered(answers[0], keeps_alive(v));
            assert(replies(seq![o]) =~= seq![wire_bytes(answers[0], keeps_alive(v))]) by {
                assert(seq![o].drop_last() =~= Seq::<Outcome>::empty());
                assert(replies(Seq::<Outcome>::empty()) == Seq::<Seq<u8>>::empty());
                assert(seq![o].last() == o);
            }
            if keeps_alive(v) {
                lemma_replies_append(
                    seq![o],
                    stream_outcomes(s.subrange(n, s.len() as int), answers.drop_first(), (budget - 1) as nat),
                );
            }
        },
        Step::Fail(e) => {
            let o = Outcome::Refused(e);
            assert(seq![o].drop_last() =~= Seq::<Outcome>::empty());
            assert(replies(Seq::<Outcome>::empty()) == Seq::<Seq<u8>>::empty());
            assert(seq![o].last() == o);
            if let Some(b) = reply_to(o) {
                assert(replies(seq![o]) =~= seq![b]);
            } else {
                assert(replies(seq![o]) =~= Seq::<Seq<u8>>::empty());
            }
        },
        Step::More => {},
    }
}

} // verus!

verus! {

/// The status of the answer to a request that could not be parsed: 414
/// for a line that is too long, 431 for a header block that is too large
/// or has too many headers, 413 for a body that is too large, and 400 for
/// anything else; each with its reason phrase and a text body.
pub proof fn lemma_error_statuses(msg: Seq<char>, io: Seq<char>)
    ensures
        error_response(ParseFailure::LineTooLong).status == 414,
        error_response(ParseFailure::HeadersTooLarge).status == 431,
        error_response(ParseFailure::TooManyHeaders).status == 431,
        error_response(ParseFailure::BodyTooLarge).status == 413,
        error_response(ParseFailure::Malformed(msg)).status == 400,
        error_response(ParseFailure::Io(io)).status == 400,
        error_response(ParseFailure::Malformed(msg)).reason == "Bad Request"@,
        error_response(ParseFailure::LineTooLong).reason == "URI Too Long"@,
        error_response(ParseFailure::HeadersTooLarge).reason == "Request Header Fields Too Large"@,
        error_response(ParseFailure::BodyTooLarge).reason == "Payload Too Large"@,
        error_response(ParseFailure::Malformed(msg)).body == encode_utf8("400 bad request: "@ + msg),
{
}

} // verus!
