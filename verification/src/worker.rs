//! The worker that answers processing requests from the message broker.
//!
//! A message is handled in steps: the caller performs an [action](WorkerAction), reports what came
//! of it as an [event](WorkerEvent), and is told what to do next.
use vstd::prelude::*;
use crate::insar::{
    is_processed, process_displacement, stack_readable, ProcessResult, ProcessingParams,
};
use crate::numerics::{is_decimal, Numerics};
use crate::scenes::{dated, StacFeature};
use crate::text::append_text;

verus! {

/// A request to process an area.
pub struct ProcessRequest<V> {
    /// West, south, east and north edge.
    pub bbox: [V; 4],
    /// ISO 8601 date range.
    pub datetime: String,
    /// The scenes that the search found.
    pub features: Vec<StacFeature>,
}

/// A message of the broker.
pub struct BrokerMessage {
    pub subject: String,
    pub body: Vec<u8>,
    pub reply_to: Option<String>,
}

/// What a message waits for; a subject is where its answer goes.
pub enum WorkerState {
    Arriving,
    Parsing { subject: String },
    Encoding { subject: String },
    Publishing,
    Finished,
}

/// What came of an action.
pub enum WorkerEvent<V> {
    Arrived { reply_to: Option<String> },
    Parsed(Result<ProcessRequest<V>, String>),
    Encoded(Result<Vec<u8>, String>),
    Published(Result<(), String>),
}

/// What to do next.
pub enum WorkerAction<V> {
    /// Parse the body of the message.
    Parse,
    /// Encode a result as JSON.
    Encode(ProcessResult<V>),
    /// Publish the answer.
    Publish(BrokerMessage),
    /// Report how the message was handled.
    Finish(Result<(), String>),
}

impl WorkerState {
    /// Whether the message waits for such an event.
    pub open spec fn awaits<V>(self, event: WorkerEvent<V>) -> bool {
        match event {
            WorkerEvent::Arrived { .. } => self is Arriving,
            WorkerEvent::Parsed(_) => self is Parsing,
            WorkerEvent::Encoded(_) => self is Encoding,
            WorkerEvent::Published(_) => self is Publishing,
        }
    }

    /// Where the answer to the message goes, once that is known.
    pub open spec fn answers_to(self) -> Option<Seq<char>> {
        match self {
            WorkerState::Parsing { subject } => Some(subject@),
            WorkerState::Encoding { subject } => Some(subject@),
            _ => None,
        }
    }
}

/// Whether an action reports a failure with a message.
pub open spec fn reports<V>(action: WorkerAction<V>, message: Seq<char>) -> bool {
    action matches WorkerAction::Finish(Err(text)) && text@ == message
}

/// Whether parameters are those of a request that chooses nothing.
pub open spec fn are_default_params<K: Numerics>(
    k: &K,
    params: ProcessingParams<K::Value>,
) -> bool {
    params.grid_size == 20 && is_decimal(k, 4, 1, params.min_coherence)
}

/// Whether a result can be what a request is answered with.
pub open spec fn answers_request<K: Numerics>(
    k: &K,
    request: ProcessRequest<K::Value>,
    r: ProcessResult<K::Value>,
) -> bool {
    exists|params: ProcessingParams<K::Value>| #[trigger]
        are_default_params(k, params) && is_processed(
            k,
            request.bbox,
            request.features@,
            params,
            r,
        )
}

/// Why a request cannot be processed.
pub open spec fn refusal<V>(request: ProcessRequest<V>) -> Seq<char> {
    if request.features@.len() == 0 {
        "no scenes provided"@
    } else {
        "need at least 2 scenes for interferometry"@
    }
}

/// Whether a message goes on with a state and an action after an event.
pub open spec fn worker_goes_on<K: Numerics>(
    k: &K,
    state: WorkerState,
    event: WorkerEvent<K::Value>,
    next: WorkerState,
    action: WorkerAction<K::Value>,
) -> bool {
    match event {
        WorkerEvent::Arrived { reply_to: Some(subject) } => {
            next is Parsing && next.answers_to() == Some(subject@) && action is Parse
        },
        WorkerEvent::Arrived { reply_to: None } => {
            next is Finished && reports(action, "missing reply_to"@)
        },
        WorkerEvent::Parsed(Ok(request)) => if dated(request.features@).len() >= 2 {
            &&& next is Encoding
            &&& next.answers_to() == state.answers_to()
            &&& action matches WorkerAction::Encode(r) && answers_request(k, request, r)
        } else {
            next is Finished && reports(action, "processing failed: "@ + refusal(request))
        },
        WorkerEvent::Parsed(Err(e)) => {
            next is Finished && reports(action, "invalid request: "@ + e@)
        },
        WorkerEvent::Encoded(Ok(encoded)) => {
            &&& next is Publishing
            &&& action matches WorkerAction::Publish(message) && Some(message.subject@)
                == state.answers_to() && message.body == encoded && message.reply_to is None
        },
        WorkerEvent::Encoded(Err(e)) => {
            next is Finished && reports(action, "serialize result: "@ + e@)
        },
        WorkerEvent::Published(outcome) => {
            next is Finished && action == WorkerAction::<K::Value>::Finish(outcome)
        },
    }
}

/// Processes a request with the default parameters.
fn answer<K: Numerics>(k: &K, request: &ProcessRequest<K::Value>) -> (result: Result<
    ProcessResult<K::Value>,
    String,
>)
    requires
        stack_readable(request.features@),
    ensures
        match result {
            Ok(r) => dated(request.features@).len() >= 2 && answers_request(k, *request, r),
            Err(e) => dated(request.features@).len() < 2 && e@ == refusal(*request),
        },
{
    let params = ProcessingParams::default(k);
    assert(are_default_params(k, params));
    process_displacement(
        k,
        &request.bbox,
        request.datetime.as_str(),
        request.features.as_slice(),
        &params,
    )
}

/// Takes a message one step further.
pub fn handle_message<K: Numerics>(
    k: &K,
    state: WorkerState,
    event: WorkerEvent<K::Value>,
) -> (next: (WorkerState, WorkerAction<K::Value>))
    requires
        state.awaits(event),
        event matches WorkerEvent::Parsed(Ok(request)) ==> stack_readable(request.features@),
    ensures
        worker_goes_on(k, state, event, next.0, next.1),
{
    match (state, event) {
        (_, WorkerEvent::Arrived { reply_to: Some(subject) }) => {
            (WorkerState::Parsing { subject }, WorkerAction::Parse)
        },
        (_, WorkerEvent::Arrived { reply_to: None }) => {
            let message = "missing reply_to".to_string();
            (WorkerState::Finished, WorkerAction::Finish(Err(message)))
        },
        (WorkerState::Parsing { subject }, WorkerEvent::Parsed(Ok(request))) => {
            match answer(k, &request) {
                Ok(r) => (WorkerState::Encoding { subject }, WorkerAction::Encode(r)),
                Err(e) => failure("processing failed: ", e.as_str()),
            }
        },
        (_, WorkerEvent::Parsed(Err(e))) => failure("invalid request: ", e.as_str()),
        (WorkerState::Encoding { subject }, WorkerEvent::Encoded(Ok(body))) => {
            let message = BrokerMessage { subject, body, reply_to: None };
            (WorkerState::Publishing, WorkerAction::Publish(message))
        },
        (_, WorkerEvent::Encoded(Err(e))) => failure("serialize result: ", e.as_str()),
        (_, WorkerEvent::Published(outcome)) => {
            (WorkerState::Finished, WorkerAction::Finish(outcome))
        },
        (_, _) => vstd::pervasive::unreached(),
    }
}

/// The end of a message that could not be handled.
fn failure<V>(stage: &str, cause: &str) -> (next: (WorkerState, WorkerAction<V>))
    ensures
        next.0 is Finished,
        reports(next.1, stage@ + cause@),
{
    (WorkerState::Finished, WorkerAction::Finish(Err(append_text(stage, cause))))
}

/// An answer goes to where the message asked for it, and carries what was encoded: whatever happens
/// on the way from a message's arrival to the publication of its answer, the subject stays.
pub proof fn answer_goes_where_it_was_asked_for<K: Numerics>(
    k: &K,
    subject: String,
    state1: WorkerState,
    action1: WorkerAction<K::Value>,
    request: ProcessRequest<K::Value>,
    state2: WorkerState,
    action2: WorkerAction<K::Value>,
    body: Vec<u8>,
    state3: WorkerState,
    action3: WorkerAction<K::Value>,
)
    requires
        worker_goes_on(
            k,
            WorkerState::Arriving,
            WorkerEvent::Arrived { reply_to: Some(subject) },
            state1,
            action1,
        ),
        dated(request.features@).len() >= 2,
        worker_goes_on(k, state1, WorkerEvent::Parsed(Ok(request)), state2, action2),
        worker_goes_on(k, state2, WorkerEvent::Encoded(Ok(body)), state3, action3),
    ensures
        action3 matches WorkerAction::Publish(message) && message.subject@ == subject@
            && message.body@ == body@ && message.reply_to is None,
{
}

/// Nothing is published for a request that cannot be processed: it ends in the report of why.
pub proof fn refused_requests_are_not_answered<K: Numerics>(
    k: &K,
    state: WorkerState,
    request: ProcessRequest<K::Value>,
    next: WorkerState,
    action: WorkerAction<K::Value>,
)
    requires
        worker_goes_on(k, state, WorkerEvent::Parsed(Ok(request)), next, action),
    ensures
        action is Encode <==> dated(request.features@).len() >= 2,
        dated(request.features@).len() < 2 ==> next is Finished && reports(
            action,
            "processing failed: "@ + refusal(request),
        ),
        !(action is Publish),
{
}

} // verus!
