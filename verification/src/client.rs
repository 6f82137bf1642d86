//! The decisions of a client: request ids, redirects, and what an answer means.

use vstd::prelude::*;
use vstd::string::StringExecFns;

use crate::message::{
    ClientOperation, ClientRequest, ClientResponse, ClientResult, MessageView, NodeId, RaftMessage,
    ResultView,
};

verus! {

/// How often a request is sent before the client gives up.
pub const MAX_REDIRECTS: usize = 5;

/// Why a request came to nothing.
#[derive(Debug)]
pub enum ClientError {
    /// The server answered with an error.
    Server(String),
    /// No leader was found in time.
    TooManyRedirects,
    /// No other node could be reached.
    NoLeader,
    /// What came back is no answer to a client.
    UnexpectedResponse,
}

impl ClientError {
    /// The error in words.
    pub open spec fn text(self) -> Seq<char> {
        match self {
            ClientError::Server(reason) => "server error: "@ + reason@,
            ClientError::TooManyRedirects => "too many leader redirects"@,
            ClientError::NoLeader => "could not find the leader after redirect"@,
            ClientError::UnexpectedResponse => "unexpected response type"@,
        }
    }

    /// Puts the error in words.
    pub fn message(&self) -> (text: String)
        ensures
            text@ == self.text(),
    {
        match self {
            ClientError::Server(reason) => String::from_str("server error: ").concat(
                reason.as_str(),
            ),
            ClientError::TooManyRedirects => String::from_str("too many leader redirects"),
            ClientError::NoLeader => String::from_str("could not find the leader after redirect"),
            ClientError::UnexpectedResponse => String::from_str("unexpected response type"),
        }
    }
}

// ── The session ────────────────────────────────────────────────────────────

/// A client's view of the cluster: the addresses of all nodes, the one that it
/// is connected to, and the id of its next request.
#[derive(Debug)]
pub struct Session {
    pub addrs: Vec<String>,
    pub current: String,
    pub next_request_id: u64,
}

/// The contents of a `Session`.
#[verifier::ext_equal]
pub struct SessionView {
    pub addrs: Seq<Seq<char>>,
    pub current: Seq<char>,
    pub next_request_id: u64,
}

impl View for Session {
    type V = SessionView;

    open spec fn view(&self) -> SessionView {
        SessionView {
            addrs: crate::args::texts_of(self.addrs@),
            current: self.current@,
            next_request_id: self.next_request_id,
        }
    }
}

impl SessionView {
    /// An address that is not the current one.
    pub open spec fn elsewhere(self) -> spec_fn(Seq<char>) -> bool {
        |addr: Seq<char>| addr != self.current
    }
}

impl Session {
    /// A session that is connected to `current`. The first request has the id 1.
    pub fn new(addrs: Vec<String>, current: String) -> (session: Session)
        ensures
            session@ == (SessionView {
                addrs: crate::args::texts_of(addrs@),
                current: current@,
                next_request_id: 1,
            }),
    {
        Session { addrs, current, next_request_id: 1 }
    }

    /// The id of the next request. Each request gets its own.
    pub fn take_request_id(&mut self) -> (id: u64)
        requires
            old(self).next_request_id < u64::MAX,
        ensures
            id == old(self).next_request_id,
            final(self)@ == (SessionView { next_request_id: (id + 1) as u64, ..old(self)@ }),
    {
        let id = self.next_request_id;
        self.next_request_id = id + 1;
        id
    }

    /// The addresses to try after a redirect, in order: all but the one that
    /// sent the client away. The client does not know which node has which
    /// address, so that a hint does not help it.
    pub fn redirect_candidates(&self) -> (candidates: Vec<String>)
        ensures
            crate::args::texts_of(candidates@) == self@.addrs.filter(self@.elsewhere()),
    {
        let mut candidates: Vec<String> = Vec::new();
        let ghost all = self@.addrs;
        let mut i: usize = 0;
        proof {
            reveal(Seq::filter);
            assert(all.take(0).filter(self@.elsewhere()) =~= Seq::empty());
            assert(crate::args::texts_of(candidates@) =~= Seq::empty());
        }
        while i < self.addrs.len()
            invariant
                i <= self.addrs@.len(),
                all == self@.addrs,
                crate::args::texts_of(candidates@) == all.take(i as int).filter(
                    self@.elsewhere(),
                ),
            decreases self.addrs@.len() - i,
        {
            let ghost before = candidates@;
            proof {
                assert(all.take(i + 1) =~= all.take(i as int).push(all[i as int]));
                Seq::lemma_filter_push(all.take(i as int), all[i as int], self@.elsewhere());
            }
            if !same_text(&self.addrs[i], &self.current) {
                candidates.push(self.addrs[i].clone());
                assert(crate::args::texts_of(candidates@) =~= crate::args::texts_of(before).push(
                    all[i as int],
                ));
            }
            i = i + 1;
        }
        assert(all.take(all.len() as int) =~= all);
        candidates
    }

    /// The session after a connection to `addr`.
    pub fn connected_to(self, addr: String) -> (session: Session)
        ensures
            session@ == (SessionView { current: addr@, ..self@ }),
    {
        Session { addrs: self.addrs, current: addr, next_request_id: self.next_request_id }
    }
}

fn same_text(a: &String, b: &String) -> (same: bool)
    ensures
        same <==> a@ == b@,
{
    *a == *b
}

// ── One request ────────────────────────────────────────────────────────────

/// A request on its way: how often it has been sent.
#[derive(Debug)]
pub struct Exchange {
    pub id: u64,
    pub operation: ClientOperation,
    pub attempts: usize,
}

/// What to do next with a request.
#[derive(Debug)]
pub enum ExchangeStep {
    /// Send it and wait for an answer.
    Send(ClientRequest),
    /// Connect to another node, and send it again.
    Redirect(Option<NodeId>),
    /// Wait for no more: this is the answer.
    Finish(ClientResponse),
    /// Give up.
    GiveUp,
}

impl Exchange {
    pub fn new(id: u64, operation: ClientOperation) -> (exchange: Exchange)
        ensures
            exchange == (Exchange { id, operation, attempts: 0 }),
    {
        Exchange { id, operation, attempts: 0 }
    }

    /// The request goes out once more, under the same id, unless it has gone out
    /// often enough.
    pub open spec fn sent_again(self) -> (Exchange, ExchangeStep) {
        if self.attempts < MAX_REDIRECTS {
            (
                Exchange { attempts: (self.attempts + 1) as usize, ..self },
                ExchangeStep::Send(ClientRequest { id: self.id, operation: self.operation }),
            )
        } else {
            (self, ExchangeStep::GiveUp)
        }
    }

    /// What a message means to the request: a redirect, the answer, or nothing,
    /// in which case the request goes out once more.
    pub open spec fn received(self, message: MessageView) -> (Exchange, ExchangeStep) {
        match message {
            MessageView::ClientResponse(resp) => match resp.result {
                ClientResult::NotLeader { leader_hint } => (
                    self,
                    ExchangeStep::Redirect(leader_hint),
                ),
                _ => (self, ExchangeStep::Finish(resp)),
            },
            _ => self.sent_again(),
        }
    }

    /// Decides whether the request goes out once more.
    pub fn next(self) -> (result: (Exchange, ExchangeStep))
        ensures
            result == self.sent_again(),
    {
        if self.attempts >= MAX_REDIRECTS {
            return (self, ExchangeStep::GiveUp);
        }
        let req = ClientRequest { id: self.id, operation: self.operation.clone() };
        (
            Exchange {
                id: self.id,
                operation: self.operation,
                attempts: self.attempts + 1,
            },
            ExchangeStep::Send(req),
        )
    }

    /// Decides what a message means to the request.
    pub fn receive(self, message: RaftMessage) -> (result: (Exchange, ExchangeStep))
        ensures
            result == self.received(message@),
    {
        match message {
            RaftMessage::ClientResponse(resp) => {
                let hint: Option<Option<NodeId>> = match &resp.result {
                    ClientResult::NotLeader { leader_hint } => Some(*leader_hint),
                    _ => None,
                };
                match hint {
                    Some(leader_hint) => (self, ExchangeStep::Redirect(leader_hint)),
                    None => (self, ExchangeStep::Finish(resp)),
                }
            },
            _ => self.next(),
        }
    }
}

/// A request keeps its id and its operation however often it goes out, each time
/// counts, and it goes out at most `MAX_REDIRECTS` times.
pub proof fn attempts_are_bounded(exchange: Exchange, message: MessageView)
    requires
        exchange.attempts <= MAX_REDIRECTS,
    ensures
        ({
            let (after, step) = exchange.received(message);
            &&& after.id == exchange.id && after.operation == exchange.operation
            &&& step is Send ==> after.attempts == exchange.attempts + 1
            &&& after.attempts <= MAX_REDIRECTS
        }),
        ({
            let (after, step) = exchange.sent_again();
            &&& after.id == exchange.id && after.operation == exchange.operation
            &&& step is Send <==> exchange.attempts < MAX_REDIRECTS
            &&& step is Send ==> after.attempts == exchange.attempts + 1
            &&& after.attempts <= MAX_REDIRECTS
        }),
{
}

/// The value that the leader's answer brings, or the error that it reports. A
/// node that is not the leader does not answer in this sense.
pub fn value_of(response: ClientResponse) -> (result: Result<Option<String>, ClientError>)
    requires
        !(response.result is NotLeader),
    ensures
        match response@.result {
            ResultView::Success(value) => result matches Ok(got) && crate::kv::text_of(got)
                == value,
            ResultView::Error(reason) => result matches Err(error) && error.text()
                == "server error: "@ + reason,
            ResultView::NotLeader { .. } => false,
        },
{
    match response.result {
        ClientResult::Success(value) => Ok(value),
        ClientResult::Error(reason) => Err(ClientError::Server(reason)),
        ClientResult::NotLeader { .. } => Err(ClientError::TooManyRedirects),
    }
}

// ── The command line ───────────────────────────────────────────────────────

/// What a command prints, where to, and the exit code of the program.
#[derive(Debug)]
pub struct Output {
    pub text: String,
    pub to_stderr: bool,
    pub exit_code: i32,
}

/// What `get` prints: the value, or a note that there is none, which counts as
/// a failure.
pub fn get_output(value: Option<String>) -> (output: Output)
    ensures
        match value {
            Some(text) => output.text@ == text@ && !output.to_stderr && output.exit_code == 0,
            None => output.text@ == "(nil)"@ && output.to_stderr && output.exit_code == 1,
        },
{
    match value {
        Some(text) => Output { text, to_stderr: false, exit_code: 0 },
        None => Output { text: String::from_str("(nil)"), to_stderr: true, exit_code: 1 },
    }
}

/// What `put` prints.
pub fn put_output() -> (output: Output)
    ensures
        output.text@ == "OK"@,
        !output.to_stderr,
        output.exit_code == 0,
{
    Output { text: String::from_str("OK"), to_stderr: false, exit_code: 0 }
}

/// What `delete` prints: the value that is gone, or a note that there was none.
pub fn delete_output(removed: Option<String>) -> (output: Output)
    ensures
        output.text@ == match removed {
            Some(old_value) => "(deleted: "@ + old_value@ + ")"@,
            None => "(nil — key did not exist)"@,
        },
        !output.to_stderr,
        output.exit_code == 0,
{
    let text = match removed {
        Some(old_value) => String::from_str("(deleted: ").concat(old_value.as_str()).concat(")"),
        None => String::from_str("(nil — key did not exist)"),
    };
    Output { text, to_stderr: false, exit_code: 0 }
}

// ── Laws ───────────────────────────────────────────────────────────────────

/// The course of a request: each step comes after a connection or after a message.
pub open spec fn is_course(exchanges: Seq<Exchange>, steps: Seq<ExchangeStep>) -> bool {
    &&& exchanges.len() == steps.len() + 1
    &&& forall|i: int|
        0 <= i < steps.len() ==> {
            ||| #[trigger] call_ensures(
                Exchange::next,
                (exchanges[i],),
                (exchanges[i + 1], steps[i]),
            )
            ||| exists|message: RaftMessage| #[trigger]
                call_ensures(
                    Exchange::receive,
                    (exchanges[i], message),
                    (exchanges[i + 1], steps[i]),
                )
        }
}

/// Whatever happens to a request, it goes out as it was made: every time with its own
/// id, and with the operation that the client asked for.
pub proof fn requests_go_out_as_made(
    id: u64,
    operation: ClientOperation,
    exchanges: Seq<Exchange>,
    steps: Seq<ExchangeStep>,
    i: int,
)
    requires
        call_ensures(Exchange::new, (id, operation), exchanges[0]),
        is_course(exchanges, steps),
        0 <= i < steps.len(),
    ensures
        steps[i] matches ExchangeStep::Send(req) ==> req.id == id && req.operation == operation,
        exchanges[i + 1].id == id,
        exchanges[i + 1].operation == operation,
        exchanges[i].attempts <= exchanges[i + 1].attempts <= i + 1,
    decreases i,
{
    if i > 0 {
        requests_go_out_as_made(id, operation, exchanges, steps, i - 1);
    }
    if !call_ensures(Exchange::next, (exchanges[i],), (exchanges[i + 1], steps[i])) {
        let message = choose|message: RaftMessage| #[trigger]
            call_ensures(
                Exchange::receive,
                (exchanges[i], message),
                (exchanges[i + 1], steps[i]),
            );
        assert(call_ensures(
            Exchange::receive,
            (exchanges[i], message),
            (exchanges[i + 1], steps[i]),
        ));
    }
}

/// A request goes out five times and no more often: each time counts, and then the
/// client gives up.
pub proof fn requests_go_out_five_times(exchange: Exchange, result: (Exchange, ExchangeStep))
    requires
        call_ensures(Exchange::next, (exchange,), result),
    ensures
        exchange.attempts < 5 ==> result.1 is Send && result.0.attempts == exchange.attempts + 1,
        exchange.attempts >= 5 ==> result.1 is GiveUp && result.0 == exchange,
{
}

/// A server that does not lead sends the client on, with the hint that it gives. Any
/// other answer of a server is the answer, as it came. What is no answer at all makes
/// the client ask again.
pub proof fn answers_are_taken_as_they_come(
    exchange: Exchange,
    message: RaftMessage,
    received: (Exchange, ExchangeStep),
    next: (Exchange, ExchangeStep),
)
    requires
        call_ensures(Exchange::receive, (exchange, message), received),
        call_ensures(Exchange::next, (exchange,), next),
    ensures
        message matches RaftMessage::ClientResponse(resp) ==> {
            &&& received.0 == exchange
            &&& match resp.result {
                ClientResult::NotLeader { leader_hint } => received.1 == ExchangeStep::Redirect(
                    leader_hint,
                ),
                _ => received.1 == ExchangeStep::Finish(resp),
            }
        },
        !(message is ClientResponse) ==> received == next,
{
}

/// No two requests of a session have the same id, whatever it connects to in between:
/// the ids count up from 1.
pub proof fn request_ids_count_up(
    addrs: Vec<String>,
    current: String,
    fresh: Session,
    session: &mut Session,
    id: u64,
    addr: String,
    moved: Session,
)
    requires
        call_ensures(Session::new, (addrs, current), fresh),
        old(session).next_request_id < u64::MAX,
        call_ensures(Session::take_request_id, (session,), id),
        call_ensures(Session::connected_to, (*session, addr), moved),
    ensures
        fresh.next_request_id == 1,
        fresh@.current == current@,
        fresh@.addrs.len() == addrs@.len(),
        forall|i: int| 0 <= i < addrs@.len() ==> #[trigger] fresh@.addrs[i] == addrs@[i]@,
        id == old(session).next_request_id,
        final(session).next_request_id == id + 1,
        final(session)@.addrs == old(session)@.addrs,
        final(session)@.current == old(session)@.current,
        moved.next_request_id == old(session).next_request_id,
        moved@.addrs == old(session)@.addrs,
        moved@.current == addr@,
{
}

/// A client that is sent on tries every address that it knows, in order, but for the
/// one that has sent it on.
pub proof fn redirects_try_everybody_else(session: &Session, candidates: Vec<String>)
    requires
        call_ensures(Session::redirect_candidates, (session,), candidates),
    ensures
        forall|i: int|
            0 <= i < session.addrs@.len() && (#[trigger] session.addrs@[i])@ != session.current@
                ==> exists|j: int|
                0 <= j < candidates@.len() && (#[trigger] candidates@[j])@ == session.addrs@[i]@,
        forall|j: int|
            0 <= j < candidates@.len() ==> (#[trigger] candidates@[j])@ != session.current@
                && exists|i: int|
                0 <= i < session.addrs@.len() && (#[trigger] session.addrs@[i])@
                    == candidates@[j]@,
        (forall|i: int| 0 <= i < session.addrs@.len() ==> (#[trigger] session.addrs@[i])@
            != session.current@) ==> crate::args::texts_of(candidates@) == session@.addrs,
{
    let all = session@.addrs;
    let list = crate::args::texts_of(candidates@);
    let other = session@.elsewhere();
    assert forall|i: int|
        0 <= i < session.addrs@.len() && (#[trigger] session.addrs@[i])@
            != session.current@ implies exists|j: int|
        0 <= j < candidates@.len() && (#[trigger] candidates@[j])@ == session.addrs@[i]@ by {
        assert(other(all[i]));
        all.lemma_filter_contains(other, i);
        let j = list.index_of(all[i]);
        assert(candidates@[j]@ == list[j]);
    }
    assert forall|j: int| 0 <= j < candidates@.len() implies (#[trigger] candidates@[j])@
        != session.current@ && exists|i: int|
        0 <= i < session.addrs@.len() && (#[trigger] session.addrs@[i])@ == candidates@[j]@ by {
        assert(list[j] == candidates@[j]@);
        all.lemma_filter_pred(other, j);
        all.lemma_filter_contains_rev(other, list[j]);
        let i = all.index_of(list[j]);
        assert(session.addrs@[i]@ == all[i]);
    }
    if forall|i: int| 0 <= i < session.addrs@.len() ==> (#[trigger] session.addrs@[i])@
        != session.current@ {
        assert forall|x: Seq<char>| #[trigger] all.contains(x) implies other(x) by {
            let i = all.index_of(x);
            assert(session.addrs@[i]@ == x);
        }
        crate::election::all_pass(all, other);
    }
}

/// The value of an answer is the one that the server has sent, and an error is the
/// server's, in its words.
pub proof fn answers_bring_the_value(
    value: Option<String>,
    reason: String,
    id: u64,
    found: Result<Option<String>, ClientError>,
    failed: Result<Option<String>, ClientError>,
    words: String,
)
    requires
        call_ensures(
            value_of,
            (ClientResponse { id, result: ClientResult::Success(value) },),
            found,
        ),
        call_ensures(
            value_of,
            (ClientResponse { id, result: ClientResult::Error(reason) },),
            failed,
        ),
        failed matches Err(error) ==> call_ensures(ClientError::message, (&error,), words),
    ensures
        found matches Ok(got) && (got is Some <==> value is Some) && (value is Some ==> got->0@
            == value->0@),
        failed is Err,
        words@ == "server error: "@ + reason@,
{
}

/// What goes wrong on the client's side has words of its own.
pub proof fn failures_have_words(redirects: String, leader: String, response: String)
    requires
        call_ensures(ClientError::message, (&ClientError::TooManyRedirects,), redirects),
        call_ensures(ClientError::message, (&ClientError::NoLeader,), leader),
        call_ensures(ClientError::message, (&ClientError::UnexpectedResponse,), response),
    ensures
        redirects@ == "too many leader redirects"@,
        leader@ == "could not find the leader after redirect"@,
        response@ == "unexpected response type"@,
{
}

/// What the commands print. Only a read of a key that is not there counts as a failure,
/// and only that goes to the error stream.
pub proof fn commands_print_what_they_got(
    value: String,
    got: Output,
    missing: Output,
    put: Output,
    deleted: Output,
    absent: Output,
)
    requires
        call_ensures(get_output, (Some(value),), got),
        call_ensures(get_output, (None,), missing),
        call_ensures(put_output, (), put),
        call_ensures(delete_output, (Some(value),), deleted),
        call_ensures(delete_output, (None,), absent),
    ensures
        got.text@ == value@ && got.exit_code == 0 && !got.to_stderr,
        missing.text@ == "(nil)"@ && missing.exit_code == 1 && missing.to_stderr,
        put.text@ == "OK"@ && put.exit_code == 0 && !put.to_stderr,
        deleted.text@ == "(deleted: "@ + value@ + ")"@ && deleted.exit_code == 0
            && !deleted.to_stderr,
        absent.text@ == "(nil — key did not exist)"@ && absent.exit_code == 0
            && !absent.to_stderr,
{
}

/// A client that knows one more address tries it last, unless it is the one that has
/// sent the client on, and tries the others as before.
pub proof fn further_addresses_are_tried_last(
    few: &Session,
    many: &Session,
    some: Vec<String>,
    more: Vec<String>,
)
    requires
        many.addrs@.len() == few.addrs@.len() + 1,
        many.addrs@.drop_last() == few.addrs@,
        many.current@ == few.current@,
        call_ensures(Session::redirect_candidates, (few,), some),
        call_ensures(Session::redirect_candidates, (many,), more),
    ensures
        crate::args::texts_of(more@) == if many.addrs@.last()@ == many.current@ {
            crate::args::texts_of(some@)
        } else {
            crate::args::texts_of(some@).push(many.addrs@.last()@)
        },
        few.addrs@.len() == 0 ==> some@.len() == 0,
{
    reveal(Seq::filter);
    assert(many@.addrs.drop_last() =~= few@.addrs);
    assert(many@.addrs.last() == many.addrs@.last()@);
    assert(crate::args::texts_of(some@).len() == some@.len());
    if few.addrs@.len() == 0 {
        assert(few@.addrs.filter(few@.elsewhere()).len() == 0);
    }
}

} // verus!
