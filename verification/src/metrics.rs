//! Per-node metrics in the Prometheus text exposition format.

use vstd::prelude::*;
use vstd::string::StringExecFns;

use crate::text::decimal;

verus! {

/// Per-node Raft metrics.
#[derive(Debug, Clone, Copy, PartialEq, Eq)]
pub struct Metrics {
    /// Current Raft term.
    pub term: u64,
    /// Current role: 0 = Follower, 1 = Candidate, 2 = Leader.
    pub role: u8,
    /// Index of the highest log entry known to be committed.
    pub commit_index: u64,
    /// Index of the highest log entry applied to the state machine.
    pub last_applied: u64,
    /// Total number of entries in the Raft log.
    pub log_length: u64,
    /// Number of client write requests waiting for log commitment.
    pub pending_writes: u64,
    /// Number of client read requests waiting for the read-index protocol.
    pub pending_reads: u64,
    /// Total Raft peer messages sent (monotonically increasing).
    pub messages_sent: u64,
    /// Total Raft peer messages received (monotonically increasing).
    pub messages_received: u64,
}

/// One metric: its help line, its type line and its value.
pub open spec fn metric_text(
    name: Seq<char>,
    help: Seq<char>,
    kind: Seq<char>,
    labels: Seq<char>,
    value: nat,
) -> Seq<char> {
    "# HELP "@ + name + " "@ + help + "\n# TYPE "@ + name + " "@ + kind + "\n"@ + name + "{"@
        + labels + "} "@ + crate::text::decimal_text(value) + "\n"@
}

/// The label that says which node a value is of.
pub open spec fn node_label(node_id: u64) -> Seq<char> {
    "node=\""@ + crate::text::decimal_text(node_id as nat) + "\""@
}

/// The name of a role by its number.
pub open spec fn role_text(role: u8) -> Seq<char> {
    if role == 1 {
        "candidate"@
    } else if role == 2 {
        "leader"@
    } else {
        "follower"@
    }
}

fn write_metric(
    out: &mut String,
    name: &str,
    help: &str,
    kind: &str,
    labels: &str,
    value: u64,
)
    ensures
        final(out)@ == old(out)@ + metric_text(name@, help@, kind@, labels@, value as nat),
{
    let ghost before = out@;
    out.append("# HELP ");
    out.append(name);
    out.append(" ");
    out.append(help);
    out.append("\n# TYPE ");
    out.append(name);
    out.append(" ");
    out.append(kind);
    out.append("\n");
    out.append(name);
    out.append("{");
    out.append(labels);
    out.append("} ");
    out.append(decimal(value).as_str());
    out.append("\n");
    assert(out@ =~= before + metric_text(name@, help@, kind@, labels@, value as nat));
}

/// A counter after `n` more. It starts again at 0 when it is full.
pub open spec fn counted(count: u64, n: int) -> u64 {
    if count + n > u64::MAX {
        (count + n - 0x1_0000_0000_0000_0000) as u64
    } else {
        (count + n) as u64
    }
}

impl Metrics {
    /// The metrics of a node that has just started.
    pub open spec fn zero() -> Metrics {
        Metrics {
            term: 0,
            role: 0,
            commit_index: 0,
            last_applied: 0,
            log_length: 0,
            pending_writes: 0,
            pending_reads: 0,
            messages_sent: 0,
            messages_received: 0,
        }
    }

    pub fn new() -> (metrics: Self)
        ensures
            metrics == Metrics::zero(),
    {
        Metrics {
            term: 0,
            role: 0,
            commit_index: 0,
            last_applied: 0,
            log_length: 0,
            pending_writes: 0,
            pending_reads: 0,
            messages_sent: 0,
            messages_received: 0,
        }
    }

    /// The metrics as text, one after the other.
    pub open spec fn rendered(self, node_id: u64) -> Seq<char> {
        let node = node_label(node_id);
        metric_text(
            "raft_term"@,
            "Current Raft term."@,
            "gauge"@,
            node + ",role=\""@ + role_text(self.role) + "\""@,
            self.term as nat,
        ) + metric_text(
            "raft_role"@,
            "Current role encoded as integer (0=follower 1=candidate 2=leader)."@,
            "gauge"@,
            node,
            self.role as nat,
        ) + metric_text(
            "raft_commit_index"@,
            "Index of the highest committed log entry."@,
            "gauge"@,
            node,
            self.commit_index as nat,
        ) + metric_text(
            "raft_last_applied"@,
            "Index of the highest applied log entry."@,
            "gauge"@,
            node,
            self.last_applied as nat,
        ) + metric_text(
            "raft_log_length"@,
            "Total number of entries in the Raft log."@,
            "gauge"@,
            node,
            self.log_length as nat,
        ) + metric_text(
            "raft_pending_writes"@,
            "Client writes waiting for log commitment."@,
            "gauge"@,
            node,
            self.pending_writes as nat,
        ) + metric_text(
            "raft_pending_reads"@,
            "Client reads waiting for the read-index protocol."@,
            "gauge"@,
            node,
            self.pending_reads as nat,
        ) + metric_text(
            "raft_messages_sent_total"@,
            "Total Raft peer messages sent."@,
            "counter"@,
            node,
            self.messages_sent as nat,
        ) + metric_text(
            "raft_messages_received_total"@,
            "Total Raft peer messages received."@,
            "counter"@,
            node,
            self.messages_received as nat,
        )
    }

    /// Render all fields in the Prometheus text exposition format (version 0.0.4).
    pub fn render(&self, node_id: u64) -> (text: String)
        ensures
            text@ == self.rendered(node_id),
    {
        let mut node = String::from_str("node=\"");
        node.append(decimal(node_id).as_str());
        node.append("\"");
        let role = match self.role {
            1 => "candidate",
            2 => "leader",
            _ => "follower",
        };
        let mut node_and_role = node.clone();
        node_and_role.append(",role=\"");
        node_and_role.append(role);
        node_and_role.append("\"");

        let mut text = String::new();
        write_metric(
            &mut text,
            "raft_term",
            "Current Raft term.",
            "gauge",
            node_and_role.as_str(),
            self.term,
        );
        write_metric(
            &mut text,
            "raft_role",
            "Current role encoded as integer (0=follower 1=candidate 2=leader).",
            "gauge",
            node.as_str(),
            self.role as u64,
        );
        write_metric(
            &mut text,
            "raft_commit_index",
            "Index of the highest committed log entry.",
            "gauge",
            node.as_str(),
            self.commit_index,
        );
        write_metric(
            &mut text,
            "raft_last_applied",
            "Index of the highest applied log entry.",
            "gauge",
            node.as_str(),
            self.last_applied,
        );
        write_metric(
            &mut text,
            "raft_log_length",
            "Total number of entries in the Raft log.",
            "gauge",
            node.as_str(),
            self.log_length,
        );
        write_metric(
            &mut text,
            "raft_pending_writes",
            "Client writes waiting for log commitment.",
            "gauge",
            node.as_str(),
            self.pending_writes,
        );
        write_metric(
            &mut text,
            "raft_pending_reads",
            "Client reads waiting for the read-index protocol.",
            "gauge",
            node.as_str(),
            self.pending_reads,
        );
        write_metric(
            &mut text,
            "raft_messages_sent_total",
            "Total Raft peer messages sent.",
            "counter",
            node.as_str(),
            self.messages_sent,
        );
        write_metric(
            &mut text,
            "raft_messages_received_total",
            "Total Raft peer messages received.",
            "counter",
            node.as_str(),
            self.messages_received,
        );
        assert(text@ =~= self.rendered(node_id));
        text
    }
}

impl Default for Metrics {
    fn default() -> (metrics: Self)
        ensures
            metrics == Metrics::zero(),
    {
        Self::new()
    }
}

/// The HTTP response that carries `body`, with its length in bytes.
pub fn http_response(body: &str) -> (response: String)
    ensures
        response@ == "HTTP/1.0 200 OK\r\nContent-Type: text/plain; version=0.0.4\r\nContent-Length: "@
            + crate::text::decimal_text(vstd::utf8::encode_utf8(body@).len()) + "\r\n\r\n"@ + body@,
{
    let mut response = String::from_str(
        "HTTP/1.0 200 OK\r\nContent-Type: text/plain; version=0.0.4\r\nContent-Length: ",
    );
    response.append(decimal(body.as_bytes().len() as u64).as_str());
    response.append("\r\n\r\n");
    response.append(body);
    response
}

/// A counter that is not full counts on.
pub proof fn counters_count(count: u64, n: int)
    requires
        0 <= n,
        count + n <= u64::MAX,
    ensures
        counted(count, n) == count + n,
{
}

/// Whether a text stands somewhere in another.
pub open spec fn has(text: Seq<char>, part: Seq<char>) -> bool {
    exists|at: int|
        0 <= at && at + part.len() <= text.len() && #[trigger] text.subrange(at, at + part.len())
            == part
}

/// What is shown of a metric: what it is for, its kind, and its value under its name.
pub open spec fn shown(
    name: Seq<char>,
    help: Seq<char>,
    kind: Seq<char>,
    labels: Seq<char>,
    value: nat,
) -> Seq<char> {
    let about = "# HELP "@ + name + " "@ + help + "\n"@;
    let of_kind = "# TYPE "@ + name + " "@ + kind + "\n"@;
    let number = crate::text::decimal_text(value);
    about + of_kind + name + "{"@ + labels + "} "@ + number + "\n"@
}

/// Whether all parts stand somewhere in a text.
spec fn has_all(text: Seq<char>, parts: Seq<Seq<char>>) -> bool {
    forall|i: int| 0 <= i < parts.len() ==> has(text, #[trigger] parts[i])
}

/// A text that goes on has what it had, and what it goes on with.
proof fn texts_go_on(text: Seq<char>, more: Seq<char>, parts: Seq<Seq<char>>, part: Seq<char>)
    requires
        has_all(text, parts),
        has(more, part),
    ensures
        has_all(text + more, parts.push(part)),
{
    let whole = text + more;
    assert forall|i: int| 0 <= i < parts.push(part).len() implies has(
        whole,
        #[trigger] parts.push(part)[i],
    ) by {
        if i < parts.len() {
            let p = parts[i];
            let at = choose|at: int|
                0 <= at && at + p.len() <= text.len() && #[trigger] text.subrange(at, at + p.len())
                    == p;
            assert(whole.subrange(at, at + p.len()) =~= text.subrange(at, at + p.len()));
        } else {
            let at = choose|at: int|
                0 <= at && at + part.len() <= more.len() && #[trigger] more.subrange(
                    at,
                    at + part.len(),
                ) == part;
            let there = text.len() + at;
            assert(whole.subrange(there, there + part.len()) =~= more.subrange(
                at,
                at + part.len(),
            ));
        }
    }
}

proof fn metric_is_shown(
    name: Seq<char>,
    help: Seq<char>,
    kind: Seq<char>,
    labels: Seq<char>,
    value: nat,
)
    ensures
        has(metric_text(name, help, kind, labels, value), shown(name, help, kind, labels, value)),
{
    reveal_strlit("\n# TYPE ");
    reveal_strlit("\n");
    reveal_strlit("# TYPE ");
    let part = shown(name, help, kind, labels, value);
    let whole = metric_text(name, help, kind, labels, value);
    assert("\n# TYPE "@ =~= "\n"@ + "# TYPE "@);
    assert(whole =~= part);
    assert(whole.subrange(0int, 0int + part.len()) =~= part);
}

/// Every metric is in the text under its name, with the node's id and with its own
/// value, and the term with the name of the role as well.
pub proof fn metrics_are_shown(metrics: &Metrics, node_id: u64, text: String)
    requires
        call_ensures(Metrics::render, (metrics, node_id), text),
    ensures
        ({
            let labels = "node=\""@ + crate::text::decimal_text(node_id as nat) + "\""@;
            let role = if metrics.role == 1 {
                "candidate"@
            } else if metrics.role == 2 {
                "leader"@
            } else {
                "follower"@
            };
            let with_role = labels + ",role=\""@ + role + "\""@;
            &&& has(
                text@,
                shown(
                    "raft_term"@,
                    "Current Raft term."@,
                    "gauge"@,
                    with_role,
                    metrics.term as nat,
                ),
            )
            &&& has(
                text@,
                shown(
                    "raft_role"@,
                    "Current role encoded as integer (0=follower 1=candidate 2=leader)."@,
                    "gauge"@,
                    labels,
                    metrics.role as nat,
                ),
            )
            &&& has(
                text@,
                shown(
                    "raft_commit_index"@,
                    "Index of the highest committed log entry."@,
                    "gauge"@,
                    labels,
                    metrics.commit_index as nat,
                ),
            )
            &&& has(
                text@,
                shown(
                    "raft_last_applied"@,
                    "Index of the highest applied log entry."@,
                    "gauge"@,
                    labels,
                    metrics.last_applied as nat,
                ),
            )
            &&& has(
                text@,
                shown(
                    "raft_log_length"@,
                    "Total number of entries in the Raft log."@,
                    "gauge"@,
                    labels,
                    metrics.log_length as nat,
                ),
            )
            &&& has(
                text@,
                shown(
                    "raft_pending_writes"@,
                    "Client writes waiting for log commitment."@,
                    "gauge"@,
                    labels,
                    metrics.pending_writes as nat,
                ),
            )
            &&& has(
                text@,
                shown(
                    "raft_pending_reads"@,
                    "Client reads waiting for the read-index protocol."@,
                    "gauge"@,
                    labels,
                    metrics.pending_reads as nat,
                ),
            )
            &&& has(
                text@,
                shown(
                    "raft_messages_sent_total"@,
                    "Total Raft peer messages sent."@,
                    "counter"@,
                    labels,
                    metrics.messages_sent as nat,
                ),
            )
            &&& has(
                text@,
                shown(
                    "raft_messages_received_total"@,
                    "Total Raft peer messages received."@,
                    "counter"@,
                    labels,
                    metrics.messages_received as nat,
                ),
            )
        }),
{
    let labels = node_label(node_id);
    let with_role = labels + ",role=\""@ + role_text(metrics.role) + "\""@;
    let l0 = Seq::<Seq<char>>::empty();
    let (name, help, kind) = ("raft_term"@, "Current Raft term."@, "gauge"@);
    let m0 = metric_text(name, help, kind, with_role, metrics.term as nat);
    let p0 = shown(name, help, kind, with_role, metrics.term as nat);
    metric_is_shown(name, help, kind, with_role, metrics.term as nat);
    assert(has_all(m0, l0.push(p0)));
    let t0 = m0;
    let l1 = l0.push(p0);
    let (name, help, kind) = ("raft_role"@, "Current role encoded as integer (0=follower 1=candidate 2=leader)."@, "gauge"@);
    let m1 = metric_text(name, help, kind, labels, metrics.role as nat);
    let p1 = shown(name, help, kind, labels, metrics.role as nat);
    metric_is_shown(name, help, kind, labels, metrics.role as nat);
    texts_go_on(t0, m1, l1, p1);
    let t1 = t0 + m1;
    let l2 = l1.push(p1);
    let (name, help, kind) = ("raft_commit_index"@, "Index of the highest committed log entry."@, "gauge"@);
    let m2 = metric_text(name, help, kind, labels, metrics.commit_index as nat);
    let p2 = shown(name, help, kind, labels, metrics.commit_index as nat);
    metric_is_shown(name, help, kind, labels, metrics.commit_index as nat);
    texts_go_on(t1, m2, l2, p2);
    let t2 = t1 + m2;
    let l3 = l2.push(p2);
    let (name, help, kind) = ("raft_last_applied"@, "Index of the highest applied log entry."@, "gauge"@);
    let m3 = metric_text(name, help, kind, labels, metrics.last_applied as nat);
    let p3 = shown(name, help, kind, labels, metrics.last_applied as nat);
    metric_is_shown(name, help, kind, labels, metrics.last_applied as nat);
    texts_go_on(t2, m3, l3, p3);
    let t3 = t2 + m3;
    let l4 = l3.push(p3);
    let (name, help, kind) = ("raft_log_length"@, "Total number of entries in the Raft log."@, "gauge"@);
    let m4 = metric_text(name, help, kind, labels, metrics.log_length as nat);
    let p4 = shown(name, help, kind, labels, metrics.log_length as nat);
    metric_is_shown(name, help, kind, labels, metrics.log_length as nat);
    texts_go_on(t3, m4, l4, p4);
    let t4 = t3 + m4;
    let l5 = l4.push(p4);
    let (name, help, kind) = ("raft_pending_writes"@, "Client writes waiting for log commitment."@, "gauge"@);
    let m5 = metric_text(name, help, kind, labels, metrics.pending_writes as nat);
    let p5 = shown(name, help, kind, labels, metrics.pending_writes as nat);
    metric_is_shown(name, help, kind, labels, metrics.pending_writes as nat);
    texts_go_on(t4, m5, l5, p5);
    let t5 = t4 + m5;
    let l6 = l5.push(p5);
    let (name, help, kind) = ("raft_pending_reads"@, "Client reads waiting for the read-index protocol."@, "gauge"@);
    let m6 = metric_text(name, help, kind, labels, metrics.pending_reads as nat);
    let p6 = shown(name, help, kind, labels, metrics.pending_reads as nat);
    metric_is_shown(name, help, kind, labels, metrics.pending_reads as nat);
    texts_go_on(t5, m6, l6, p6);
    let t6 = t5 + m6;
    let l7 = l6.push(p6);
    let (name, help, kind) = ("raft_messages_sent_total"@, "Total Raft peer messages sent."@, "counter"@);
    let m7 = metric_text(name, help, kind, labels, metrics.messages_sent as nat);
    let p7 = shown(name, help, kind, labels, metrics.messages_sent as nat);
    metric_is_shown(name, help, kind, labels, metrics.messages_sent as nat);
    texts_go_on(t6, m7, l7, p7);
    let t7 = t6 + m7;
    let l8 = l7.push(p7);
    let (name, help, kind) = ("raft_messages_received_total"@, "Total Raft peer messages received."@, "counter"@);
    let m8 = metric_text(name, help, kind, labels, metrics.messages_received as nat);
    let p8 = shown(name, help, kind, labels, metrics.messages_received as nat);
    metric_is_shown(name, help, kind, labels, metrics.messages_received as nat);
    texts_go_on(t7, m8, l8, p8);
    let t8 = t7 + m8;
    let l9 = l8.push(p8);
    assert(text@ == t8);
    assert(l9[0] == p0);
    assert(l9[1] == p1);
    assert(l9[2] == p2);
    assert(l9[3] == p3);
    assert(l9[4] == p4);
    assert(l9[5] == p5);
    assert(l9[6] == p6);
    assert(l9[7] == p7);
    assert(l9[8] == p8);
}

/// A response over HTTP says how many bytes its body has, and then comes the body.
pub proof fn responses_say_their_length(body: &str, length: u64, number: String, response: String)
    requires
        length == vstd::utf8::encode_utf8(body@).len(),
        call_ensures(crate::text::decimal, (length,), number),
        call_ensures(http_response, (body,), response),
    ensures
        response@ == "HTTP/1.0 200 OK\r\nContent-Type: text/plain; version=0.0.4\r\n"@ + (
        "Content-Length: "@ + number@ + "\r\n\r\n"@ + body@),
{
    let part = "Content-Length: "@ + number@ + "\r\n\r\n"@ + body@;
    let head = "HTTP/1.0 200 OK\r\nContent-Type: text/plain; version=0.0.4\r\n"@;
    header_has_two_parts();
    assert(response@ =~= head + part);
}

proof fn header_has_two_parts()
    ensures
        "HTTP/1.0 200 OK\r\nContent-Type: text/plain; version=0.0.4\r\nContent-Length: "@
            == "HTTP/1.0 200 OK\r\nContent-Type: text/plain; version=0.0.4\r\n"@
            + "Content-Length: "@,
{
    reveal_strlit(
        "HTTP/1.0 200 OK\r\nContent-Type: text/plain; version=0.0.4\r\nContent-Length: ",
    );
    reveal_strlit("HTTP/1.0 200 OK\r\nContent-Type: text/plain; version=0.0.4\r\n");
    reveal_strlit("Content-Length: ");
    assert("HTTP/1.0 200 OK\r\nContent-Type: text/plain; version=0.0.4\r\nContent-Length: "@
        =~= "HTTP/1.0 200 OK\r\nContent-Type: text/plain; version=0.0.4\r\n"@
        + "Content-Length: "@);
}

} // verus!
