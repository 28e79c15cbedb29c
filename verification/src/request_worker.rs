//! The decisions of the worker that probes upstream servers.
//!
//! The worker takes scheduling messages from a queue, one at a time, and
//! sends one liveness probe for each. Receiving and sending are left to the
//! caller: it reports each thing that happened as a [`WorkerEvent`], and is
//! told by a [`WorkerAction`] what to do next.

use crate::text::decimal_text;
use crate::text::push_decimal;
use vstd::prelude::*;

verus! {

/// The name of the header that carries the index of the probed server.
pub const HEADER_SBSD_SERVER_IDX: &'static str = "X-SBSD-SERVER-IDX";

/// The name of the header that marks a request as a health check.
pub const HEADER_SBSD_SERVER_HC: &'static str = "X-SBSD-SERVER-HC";

/// The body of a probe: a query for the state of the system.
pub const SERVER_CHECK_REQUEST_BODY: &'static str =
    "{\"jsonrpc\":\"2.0\",\"method\":\"suix_getLatestSuiSystemState\",\"id\":1,\"params\":[\"\"]}";

/// A scheduling message: probe the server of this index through this port.
#[derive(Clone, Copy, Debug, PartialEq, Eq, Structural)]
pub struct HealthCheckRequest {
    pub server_idx: u8,
    pub port: u32,
}

/// One header of a request.
#[derive(Debug)]
pub struct Header {
    pub name: String,
    pub value: String,
}

/// A liveness probe, ready to be sent.
#[derive(Debug)]
pub struct ProbeRequest {
    pub method: String,
    pub uri: String,
    pub headers: Vec<Header>,
    pub body: String,
}

/// The address that a probe through `port` is sent to.
pub open spec fn probe_uri(port: u32) -> Seq<char> {
    "http://0.0.0.0:"@ + decimal_text(port as nat)
}

impl ProbeRequest {
    /// Whether this is the probe that the message `msg` asks for: a `GET`
    /// of the loopback address at the port of the message, with a JSON body
    /// that queries the state of the system, and headers that give the type
    /// of the body, the index of the server, and the mark of a health check.
    pub open spec fn answers(self, msg: HealthCheckRequest) -> bool {
        &&& self.method@ == "GET"@
        &&& self.uri@ == probe_uri(msg.port)
        &&& self.body@ == SERVER_CHECK_REQUEST_BODY@
        &&& self.headers.len() == 3
        &&& self.headers[0].name@ == "content-type"@
        &&& self.headers[0].value@ == "application/json"@
        &&& self.headers[1].name@ == HEADER_SBSD_SERVER_IDX@
        &&& self.headers[1].value@ == decimal_text(msg.server_idx as nat)
        &&& self.headers[2].name@ == HEADER_SBSD_SERVER_HC@
        &&& self.headers[2].value@ == "1"@
    }

    /// Builds the probe that the message `msg` asks for.
    pub fn new(msg: HealthCheckRequest) -> (probe: ProbeRequest)
        ensures
            probe.answers(msg),
    {
        let mut server_idx = String::new();
        push_decimal(&mut server_idx, msg.server_idx as u128);
        let mut uri = "http://0.0.0.0:".to_string();
        push_decimal(&mut uri, msg.port as u128);
        let mut headers: Vec<Header> = Vec::new();
        headers.push(Header { name: content_type_name(), value: "application/json".to_string() });
        headers.push(Header { name: HEADER_SBSD_SERVER_IDX.to_string(), value: server_idx });
        headers.push(Header { name: HEADER_SBSD_SERVER_HC.to_string(), value: "1".to_string() });
        ProbeRequest {
            method: get_method_name(),
            uri,
            headers,
            body: SERVER_CHECK_REQUEST_BODY.to_string(),
        }
    }
}

/// The name of the standard header for the type of a body, as
/// `axum::http::header::CONTENT_TYPE` spells it: `content-type`, which is
/// what `HeaderName::as_str` returns for that header.
#[verifier::external_body]
fn content_type_name() -> (name: String)
    ensures
        name@ == "content-type"@,
{
    axum::http::header::CONTENT_TYPE.as_str().to_string()
}

/// The name of the method of a probe, as `reqwest::Method::GET` spells it:
/// `GET`, which is what `Method::as_str` returns for that method.
#[verifier::external_body]
fn get_method_name() -> (name: String)
    ensures
        name@ == "GET"@,
{
    reqwest::Method::GET.as_str().to_string()
}

/// Whether the worker still takes messages.
#[derive(Clone, Copy, Debug, PartialEq, Eq, Structural)]
pub enum WorkerState {
    Running,
    Stopped,
}

/// How the sending of a probe ended.
#[derive(Clone, Copy, Debug, PartialEq, Eq, Structural)]
pub enum ProbeOutcome {
    /// The call completed, with whatever answer.
    Completed,
    /// The call failed in transport.
    Failed,
}

/// What happened since the worker was last asked.
#[derive(Clone, Copy, Debug, PartialEq, Eq, Structural)]
pub enum WorkerEvent {
    /// A shutdown was found requested, between two messages.
    ShutdownRequested,
    /// The queue was found closed: no producer remains.
    QueueClosed,
    /// A message was taken from the queue.
    Message(HealthCheckRequest),
    /// The probe that was last handed out has ended.
    ProbeFinished(ProbeOutcome),
}

/// What the caller is to do next.
#[derive(Debug)]
pub enum WorkerAction {
    /// Look for a requested shutdown, then wait for the next message.
    Receive,
    /// Send this probe, and wait until it has ended.
    Probe(ProbeRequest),
    /// Leave the loop.
    Exit,
}

/// The kind of a [`WorkerAction`], with the message that a probe answers.
pub enum Decision {
    Receive,
    Probe(HealthCheckRequest),
    Exit,
}

/// The state after `event`: a requested shutdown and a closed queue stop
/// the worker, and a stopped worker stays so; nothing else changes the state.
pub open spec fn next_state(state: WorkerState, event: WorkerEvent) -> WorkerState {
    match (state, event) {
        (WorkerState::Stopped, _) => WorkerState::Stopped,
        (WorkerState::Running, WorkerEvent::ShutdownRequested) => WorkerState::Stopped,
        (WorkerState::Running, WorkerEvent::QueueClosed) => WorkerState::Stopped,
        (WorkerState::Running, _) => WorkerState::Running,
    }
}

/// What a worker in `state` decides on `event`: a running worker sends one
/// probe for a message, and goes back to the queue when a probe has ended,
/// however it ended; a worker that stops, or has stopped, leaves.
pub open spec fn decision(state: WorkerState, event: WorkerEvent) -> Decision {
    match (state, event) {
        (WorkerState::Running, WorkerEvent::Message(msg)) => Decision::Probe(msg),
        (WorkerState::Running, WorkerEvent::ProbeFinished(_)) => Decision::Receive,
        _ => Decision::Exit,
    }
}

impl WorkerAction {
    /// Whether this action carries out `decision`.
    pub open spec fn carries_out(self, decision: Decision) -> bool {
        match decision {
            Decision::Receive => self is Receive,
            Decision::Probe(msg) => self matches WorkerAction::Probe(probe) && probe.answers(msg),
            Decision::Exit => self is Exit,
        }
    }
}

/// The worker that probes upstream servers.
#[derive(Debug)]
pub struct RequestWorker {
    pub state: WorkerState,
}

impl RequestWorker {
    /// A running worker. Its first action is to receive.
    pub fn new() -> (worker: Self)
        ensures
            worker.state == WorkerState::Running,
    {
        RequestWorker { state: WorkerState::Running }
    }

    /// Whether the worker has stopped.
    pub fn is_stopped(&self) -> (stopped: bool)
        ensures
            stopped == (self.state == WorkerState::Stopped),
    {
        match self.state {
            WorkerState::Stopped => true,
            WorkerState::Running => false,
        }
    }

    /// Takes note of `event` and decides what to do next.
    pub fn on_event(&mut self, event: WorkerEvent) -> (action: WorkerAction)
        ensures
            final(self).state == next_state(old(self).state, event),
            action.carries_out(decision(old(self).state, event)),
    {
        match self.state {
            WorkerState::Stopped => WorkerAction::Exit,
            WorkerState::Running => match event {
                WorkerEvent::ShutdownRequested => {
                    self.state = WorkerState::Stopped;
                    WorkerAction::Exit
                },
                WorkerEvent::QueueClosed => {
                    self.state = WorkerState::Stopped;
                    WorkerAction::Exit
                },
                WorkerEvent::Message(msg) => WorkerAction::Probe(ProbeRequest::new(msg)),
                WorkerEvent::ProbeFinished(_) => WorkerAction::Receive,
            },
        }
    }
}

/// The state of a worker that started running and has seen `events`.
pub open spec fn state_after(events: Seq<WorkerEvent>) -> WorkerState
    decreases events.len(),
{
    if events.len() == 0 {
        WorkerState::Running
    } else {
        next_state(state_after(events.drop_last()), events.last())
    }
}

/// Once the queue was found closed, or a shutdown requested, the worker has
/// stopped for good: whatever happens later, it sends no probe and keeps
/// telling the caller to leave.
pub proof fn lemma_no_probe_after_stop(events: Seq<WorkerEvent>, i: int, j: int)
    requires
        0 <= i < j < events.len(),
        events[i] == WorkerEvent::QueueClosed || events[i] == WorkerEvent::ShutdownRequested,
    ensures
        state_after(events.take(j)) == WorkerState::Stopped,
        decision(state_after(events.take(j)), events[j]) is Exit,
    decreases j - i,
{
    let before = events.take(j);
    assert(before.drop_last() == events.take(j - 1));
    assert(before.last() == events[j - 1]);
    if j - 1 > i {
        lemma_no_probe_after_stop(events, i, j - 1);
    }
}

/// A probe that failed, like one that completed, leaves the worker running
/// and sends it back to the queue.
pub proof fn lemma_probe_failure_is_not_fatal(outcome: ProbeOutcome)
    ensures
        next_state(WorkerState::Running, WorkerEvent::ProbeFinished(outcome))
            == WorkerState::Running,
        decision(WorkerState::Running, WorkerEvent::ProbeFinished(outcome)) is Receive,
{
}

/// Each message makes a running worker send exactly the probe that the
/// message asks for, and leaves it running.
pub proof fn lemma_one_probe_per_message(msg: HealthCheckRequest)
    ensures
        next_state(WorkerState::Running, WorkerEvent::Message(msg)) == WorkerState::Running,
        decision(WorkerState::Running, WorkerEvent::Message(msg)) == Decision::Probe(msg),
{
}

} // verus!
