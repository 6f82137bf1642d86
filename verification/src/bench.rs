//! The decisions of the load tester: which operations it issues, and where it
//! turns when it is sent away.

use vstd::prelude::*;
use vstd::string::StringExecFns;

use crate::message::{ClientOperation, ClientRequest, ClientResult, MessageView, NodeId, RaftMessage};
use crate::text::decimal;

verus! {

/// How often an operation is tried before it counts as failed.
pub const MAX_TRIES: usize = 5;

/// Operation mix.
#[derive(Debug, Clone, Copy, PartialEq, Eq, Structural)]
pub enum Workload {
    /// 100 % PUT operations.
    Write,
    /// 100 % GET operations.
    Read,
    /// 50 % PUT and 50 % GET.
    Mixed,
}

/// The key of a worker's `n`-th pair.
pub open spec fn key_text(worker: u64, n: u64) -> Seq<char> {
    "bench-"@ + crate::text::decimal_text(worker as nat) + "-"@ + crate::text::decimal_text(
        n as nat,
    )
}

/// Whether `operation` writes the worker's `n`-th pair.
pub open spec fn puts(operation: ClientOperation, worker: u64, n: u64) -> bool {
    operation matches ClientOperation::Put { key, value } && key@ == key_text(worker, n) && value@
        == crate::text::decimal_text(n as nat)
}

/// Whether `operation` reads the worker's `n`-th pair.
pub open spec fn gets(operation: ClientOperation, worker: u64, n: u64) -> bool {
    operation matches ClientOperation::Get { key } && key@ == key_text(worker, n)
}

fn key(worker: u64, n: u64) -> (key: String)
    ensures
        key@ == key_text(worker, n),
{
    String::from_str("bench-").concat(decimal(worker).as_str()).concat("-").concat(
        decimal(n).as_str(),
    )
}

/// The operation that a worker issues after `count` successful ones. In a mixed
/// workload every pair is written and then read.
pub fn operation(workload: Workload, worker: u64, count: u64) -> (operation: ClientOperation)
    ensures
        match workload {
            Workload::Write => puts(operation, worker, count),
            Workload::Read => gets(operation, worker, count),
            Workload::Mixed => if count % 2 == 0 {
                puts(operation, worker, count / 2)
            } else {
                gets(operation, worker, count / 2)
            },
        },
{
    match workload {
        Workload::Write => ClientOperation::Put { key: key(worker, count), value: decimal(count) },
        Workload::Read => ClientOperation::Get { key: key(worker, count) },
        Workload::Mixed => {
            if count % 2 == 0 {
                ClientOperation::Put { key: key(worker, count / 2), value: decimal(count / 2) }
            } else {
                ClientOperation::Get { key: key(worker, count / 2) }
            }
        },
    }
}

// ── Trying an operation ────────────────────────────────────────────────────

/// An operation under way: the id of the next request, and how often it has been
/// tried.
#[derive(Debug)]
pub struct Attempt {
    pub operation: ClientOperation,
    pub next_id: u64,
    pub tries: usize,
}

/// What to do next with an operation.
#[derive(Debug)]
pub enum AttemptStep {
    /// Send it and wait for an answer.
    Send(ClientRequest),
    /// Connect to another node, and try again.
    Redirect(Option<NodeId>),
    /// It is done.
    Done,
    /// The server reports an error.
    Failed(String),
    /// What came back is no answer to a client.
    Unexpected,
    /// Give up: no leader was found.
    GiveUp,
}

impl Attempt {
    /// One more try, under an id of its own, unless there have been enough.
    pub open spec fn tried_again(self) -> (Attempt, AttemptStep) {
        if self.tries < MAX_TRIES {
            (
                Attempt {
                    next_id: (self.next_id + 1) as u64,
                    tries: (self.tries + 1) as usize,
                    ..self
                },
                AttemptStep::Send(ClientRequest { id: self.next_id, operation: self.operation }),
            )
        } else {
            (self, AttemptStep::GiveUp)
        }
    }

    /// Decides whether there is one more try.
    pub fn next(self) -> (result: (Attempt, AttemptStep))
        requires
            self.next_id < u64::MAX,
        ensures
            result == self.tried_again(),
    {
        if self.tries >= MAX_TRIES {
            return (self, AttemptStep::GiveUp);
        }
        let req = ClientRequest { id: self.next_id, operation: self.operation.clone() };
        (
            Attempt {
                operation: self.operation,
                next_id: self.next_id + 1,
                tries: self.tries + 1,
            },
            AttemptStep::Send(req),
        )
    }
}

/// What an answer means to an operation.
pub open spec fn verdict(message: MessageView) -> AttemptStep {
    match message {
        MessageView::ClientResponse(resp) => match resp.result {
            ClientResult::NotLeader { leader_hint } => AttemptStep::Redirect(leader_hint),
            ClientResult::Error(reason) => AttemptStep::Failed(reason),
            ClientResult::Success(_) => AttemptStep::Done,
        },
        _ => AttemptStep::Unexpected,
    }
}

/// Decides what an answer means to an operation.
pub fn judge(message: RaftMessage) -> (step: AttemptStep)
    ensures
        step == verdict(message@),
{
    match message {
        RaftMessage::ClientResponse(resp) => match resp.result {
            ClientResult::NotLeader { leader_hint } => AttemptStep::Redirect(leader_hint),
            ClientResult::Error(reason) => AttemptStep::Failed(reason),
            ClientResult::Success(_) => AttemptStep::Done,
        },
        _ => AttemptStep::Unexpected,
    }
}

// ── Redirects ──────────────────────────────────────────────────────────────

/// The addresses with the hinted leader's first. Node `n` has the `n`-th
/// address, and trades places with the first.
pub open spec fn reordered(addrs: Seq<Seq<char>>, hint: Option<NodeId>) -> Seq<Seq<char>> {
    match hint {
        Some(id) => if 1 <= id <= addrs.len() {
            addrs.update(0, addrs[id - 1]).update(id - 1, addrs[0])
        } else {
            addrs
        },
        None => addrs,
    }
}

/// An address that is not the current one.
pub open spec fn elsewhere(current: Seq<char>) -> spec_fn(Seq<char>) -> bool {
    |addr: Seq<char>| addr != current
}

/// The addresses to try after a redirect: the hinted leader first, and not the
/// one that sent the client away.
pub open spec fn candidates(
    addrs: Seq<Seq<char>>,
    hint: Option<NodeId>,
    current: Seq<char>,
) -> Seq<Seq<char>> {
    reordered(addrs, hint).filter(elsewhere(current))
}

/// The addresses to try after a redirect, in order.
pub fn redirect_candidates(addrs: &Vec<String>, hint: Option<NodeId>, current: &String) -> (list:
    Vec<String>)
    ensures
        crate::args::texts_of(list@) == candidates(
            crate::args::texts_of(addrs@),
            hint,
            current@,
        ),
{
    let len = addrs.len();
    let leader: usize = match hint {
        Some(id) => {
            if id >= 1 && id <= len as u64 {
                (id - 1) as usize
            } else {
                0
            }
        },
        None => 0,
    };
    let ghost all = crate::args::texts_of(addrs@);
    let ghost order = reordered(all, hint);
    let ghost other = elsewhere(current@);
    let mut list: Vec<String> = Vec::new();
    let mut i: usize = 0;
    proof {
        reveal(Seq::filter);
        assert(order.take(0).filter(other) =~= Seq::empty());
        assert(crate::args::texts_of(list@) =~= Seq::empty());
    }
    while i < len
        invariant
            len == addrs@.len(),
            i <= len,
            len > 0 ==> leader < len,
            all == crate::args::texts_of(addrs@),
            order.len() == len,
            forall|j: int|
                0 <= j < len ==> #[trigger] order[j] == all[if j == 0 {
                    leader as int
                } else if j == leader {
                    0
                } else {
                    j
                }],
            other == elsewhere(current@),
            crate::args::texts_of(list@) == order.take(i as int).filter(other),
        decreases len - i,
    {
        let at: usize = if i == 0 {
            leader
        } else if i == leader {
            0
        } else {
            i
        };
        let ghost before = list@;
        proof {
            assert(order[i as int] == addrs@[at as int]@);
            assert(order.take(i + 1) =~= order.take(i as int).push(order[i as int]));
            Seq::lemma_filter_push(order.take(i as int), order[i as int], other);
        }
        let addr = addrs[at].clone();
        if addr != *current {
            list.push(addr);
            assert(crate::args::texts_of(list@) =~= crate::args::texts_of(before).push(
                order[i as int],
            ));
        }
        i = i + 1;
    }
    assert(order.take(len as int) =~= order);
    list
}

/// The hinted leader is tried first, unless it is the node that sent the client
/// away; and whoever sent it away is never tried.
pub proof fn hinted_leader_comes_first(
    addrs: Seq<Seq<char>>,
    id: NodeId,
    current: Seq<char>,
)
    requires
        1 <= id <= addrs.len(),
    ensures
        addrs[id - 1] != current ==> candidates(addrs, Some(id), current).len() > 0 && candidates(
            addrs,
            Some(id),
            current,
        )[0] == addrs[id - 1],
        !candidates(addrs, Some(id), current).contains(current),
{
    let order = reordered(addrs, Some(id));
    let other = elsewhere(current);
    if addrs[id - 1] != current {
        let rest = order.skip(1);
        assert(order =~= seq![order[0]] + rest);
        Seq::filter_distributes_over_add(seq![order[0]], rest, other);
        assert(seq![order[0]].filter(other) =~= seq![order[0]]) by {
            reveal(Seq::filter);
            assert(seq![order[0]].drop_last() =~= Seq::empty());
            assert(Seq::<Seq<char>>::empty().filter(other) =~= Seq::empty());
        }
        assert(order[0] == addrs[id - 1]);
        assert(candidates(addrs, Some(id), current) == seq![order[0]] + rest.filter(other));
    }
    if order.filter(other).contains(current) {
        order.lemma_filter_contains_rev(other, current);
        let i = choose|i: int|
            0 <= i < order.filter(other).len() && order.filter(other)[i] == current;
        order.lemma_filter_pred(other, i);
    }
}

/// A mixed workload writes a pair and then reads it back: the read has the key of the
/// write just before it, and goes to no pair that was not written. A write-only
/// workload only writes, and a read-only one only reads, a new pair each time.
pub proof fn workloads_are_what_they_say(
    worker: u64,
    count: u64,
    write: ClientOperation,
    read: ClientOperation,
    first: ClientOperation,
    second: ClientOperation,
)
    requires
        2 * count + 1 <= u64::MAX,
        call_ensures(operation, (Workload::Write, worker, count), write),
        call_ensures(operation, (Workload::Read, worker, count), read),
        call_ensures(operation, (Workload::Mixed, worker, (2 * count) as u64), first),
        call_ensures(operation, (Workload::Mixed, worker, (2 * count + 1) as u64), second),
    ensures
        ({
            let number = crate::text::decimal_text(count as nat);
            let name = "bench-"@ + crate::text::decimal_text(worker as nat) + "-"@ + number;
            &&& write matches ClientOperation::Put { key, value } && key@ == name && value@
                == number
            &&& read matches ClientOperation::Get { key } && key@ == name
            &&& first matches ClientOperation::Put { key, value } && key@ == name && value@
                == number
            &&& second matches ClientOperation::Get { key } && key@ == name
        }),
{
}

/// A worker tries an operation five times at most, every time the operation itself, and
/// every time under the next id, so that no two tries have the same.
pub proof fn tries_have_ids_of_their_own(attempt: Attempt, result: (Attempt, AttemptStep))
    requires
        attempt.next_id < u64::MAX,
        call_ensures(Attempt::next, (attempt,), result),
    ensures
        result.0.operation == attempt.operation,
        attempt.tries < 5 ==> {
            &&& result.1 matches AttemptStep::Send(req) && req.id == attempt.next_id
                && req.operation == attempt.operation
            &&& result.0.next_id == attempt.next_id + 1
            &&& result.0.tries == attempt.tries + 1
        },
        attempt.tries >= 5 ==> result.1 is GiveUp && result.0 == attempt,
{
}

/// An operation is done when the server says so, has failed with the server's reason,
/// or goes on with the hint that the server gives. Nothing else is an answer.
pub proof fn answers_are_judged_by_what_they_say(message: RaftMessage, step: AttemptStep)
    requires
        call_ensures(judge, (message,), step),
    ensures
        message matches RaftMessage::ClientResponse(resp) ==> match resp.result {
            ClientResult::Success(_) => step is Done,
            ClientResult::Error(reason) => step == AttemptStep::Failed(reason),
            ClientResult::NotLeader { leader_hint } => step == AttemptStep::Redirect(leader_hint),
        },
        !(message is ClientResponse) ==> step is Unexpected,
{
}

/// A worker that is sent on tries every other address, whatever the hint: those that it
/// knows, but for the one that has sent it on. Where the hint names a node, that node's
/// address comes first.
pub proof fn workers_try_everybody_else(
    addrs: &Vec<String>,
    hint: Option<NodeId>,
    current: &String,
    list: Vec<String>,
)
    requires
        call_ensures(redirect_candidates, (addrs, hint, current), list),
    ensures
        forall|i: int|
            0 <= i < addrs@.len() && (#[trigger] addrs@[i])@ != current@ ==> exists|j: int|
                0 <= j < list@.len() && (#[trigger] list@[j])@ == addrs@[i]@,
        forall|j: int|
            0 <= j < list@.len() ==> (#[trigger] list@[j])@ != current@ && exists|i: int|
                0 <= i < addrs@.len() && (#[trigger] addrs@[i])@ == list@[j]@,
        hint matches Some(id) ==> 1 <= id <= addrs@.len() && addrs@[id - 1]@ != current@
            ==> list@.len() > 0 && list@[0]@ == addrs@[id - 1]@,
        (forall|i: int| 0 <= i < addrs@.len() ==> (#[trigger] addrs@[i])@ != current@) ==> {
            &&& list@.len() == addrs@.len()
            &&& forall|i: int|
                0 < i < addrs@.len() && hint != Some((i + 1) as u64) ==> (#[trigger] list@[i])@
                    == addrs@[i]@
        },
{
    let all = crate::args::texts_of(addrs@);
    let order = reordered(all, hint);
    let texts = crate::args::texts_of(list@);
    let other = elsewhere(current@);
    assert forall|i: int|
        0 <= i < addrs@.len() && (#[trigger] addrs@[i])@ != current@ implies exists|j: int|
        0 <= j < list@.len() && (#[trigger] list@[j])@ == addrs@[i]@ by {
        let at = match hint {
            Some(id) => if 1 <= id <= all.len() {
                if i == 0 {
                    id - 1
                } else if i == id - 1 {
                    0
                } else {
                    i
                }
            } else {
                i
            },
            None => i,
        };
        assert(order[at] == all[i]);
        order.lemma_filter_contains(other, at);
        let j = texts.index_of(order[at]);
        assert(list@[j]@ == texts[j]);
    }
    assert forall|j: int| 0 <= j < list@.len() implies (#[trigger] list@[j])@ != current@
        && exists|i: int| 0 <= i < addrs@.len() && (#[trigger] addrs@[i])@ == list@[j]@ by {
        assert(texts[j] == list@[j]@);
        order.lemma_filter_pred(other, j);
        order.lemma_filter_contains_rev(other, texts[j]);
        let at = order.index_of(texts[j]);
        let i = match hint {
            Some(id) => if 1 <= id <= all.len() {
                if at == 0 {
                    id - 1
                } else if at == id - 1 {
                    0
                } else {
                    at
                }
            } else {
                at
            },
            None => at,
        };
        assert(addrs@[i]@ == order[at]);
    }
    if forall|i: int| 0 <= i < addrs@.len() ==> (#[trigger] addrs@[i])@ != current@ {
        assert forall|x: Seq<char>| #[trigger] order.contains(x) implies other(x) by {
            let at = order.index_of(x);
            let i = match hint {
                Some(id) => if 1 <= id <= all.len() {
                    if at == 0 {
                        id - 1
                    } else if at == id - 1 {
                        0
                    } else {
                        at
                    }
                } else {
                    at
                },
                None => at,
            };
            assert(addrs@[i]@ == x);
        }
        crate::election::all_pass(order, other);
        assert forall|i: int| 0 < i < addrs@.len() && hint != Some((i + 1) as u64) implies (
        #[trigger] list@[i])@ == addrs@[i]@ by {
            assert(texts[i] == list@[i]@);
            assert(order[i] == all[i]);
        }
    }
    if let Some(id) = hint {
        if 1 <= id <= addrs@.len() && addrs@[id - 1]@ != current@ {
            hinted_leader_comes_first(all, id, current@);
            assert(texts[0] == list@[0]@);
        }
    }
}

/// Without a hint, or with one that names no address, a worker that knows one more
/// address tries it last, unless it is the one that has sent the worker on.
pub proof fn further_addresses_are_tried_last(
    few: &Vec<String>,
    many: &Vec<String>,
    current: &String,
    hint: Option<NodeId>,
    some: Vec<String>,
    more: Vec<String>,
    hinted: Vec<String>,
)
    requires
        many@.len() == few@.len() + 1,
        many@.drop_last() == few@,
        hint matches Some(id) ==> id == 0 || id > many@.len(),
        call_ensures(redirect_candidates, (few, None, current), some),
        call_ensures(redirect_candidates, (many, None, current), more),
        call_ensures(redirect_candidates, (many, hint, current), hinted),
    ensures
        crate::args::texts_of(more@) == if many@.last()@ == current@ {
            crate::args::texts_of(some@)
        } else {
            crate::args::texts_of(some@).push(many@.last()@)
        },
        crate::args::texts_of(hinted@) == crate::args::texts_of(more@),
        few@.len() == 0 ==> some@.len() == 0,
{
    reveal(Seq::filter);
    let all = crate::args::texts_of(many@);
    assert(all.drop_last() =~= crate::args::texts_of(few@));
    assert(all.last() == many@.last()@);
    assert(crate::args::texts_of(some@).len() == some@.len());
}

/// A hint makes a worker try the addresses as if the hinted leader's and the first one
/// had traded places.
pub proof fn hinted_leaders_trade_places(
    addrs: &Vec<String>,
    traded: &Vec<String>,
    id: NodeId,
    current: &String,
    hinted: Vec<String>,
    plain: Vec<String>,
)
    requires
        1 <= id <= addrs@.len(),
        traded@.len() == addrs@.len(),
        traded@[0]@ == addrs@[id - 1]@,
        traded@[id - 1]@ == addrs@[0]@,
        forall|i: int|
            0 < i < addrs@.len() && i != id - 1 ==> (#[trigger] traded@[i])@ == addrs@[i]@,
        call_ensures(redirect_candidates, (addrs, Some(id), current), hinted),
        call_ensures(redirect_candidates, (traded, None, current), plain),
    ensures
        crate::args::texts_of(hinted@) == crate::args::texts_of(plain@),
{
    let all = crate::args::texts_of(addrs@);
    let other = crate::args::texts_of(traded@);
    assert(reordered(all, Some(id)) =~= other) by {
        assert forall|i: int| 0 <= i < other.len() implies #[trigger] other[i] == reordered(
            all,
            Some(id),
        )[i] by {
            assert(other[i] == traded@[i]@);
        }
    }
}

} // verus!
