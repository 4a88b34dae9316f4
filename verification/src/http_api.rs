//! The HTTP interface: routes, replies, and the exchanges behind them.
//!
//! An exchange is a chain of steps. The caller performs an [action](SearchAction) and reports
//! what came of it as an [event](SearchEvent); the step function says what to do next.
use vstd::prelude::*;
use crate::datetime::{
    datetime_supported, normalize_datetime, normalized_datetime, normalizing_is_idempotent,
};
use crate::text::{append_text, has_prefix, same_text, starts_with};

verus! {

/// The scene catalogue.
pub const STAC_BASE: &'static str = "https://earth-search.aws.element84.com/v1";

/// The collection that is searched where a request does not say otherwise.
pub const DEFAULT_COLLECTION: &'static str = "sentinel-1-grd";

/// The number of scenes that is asked for where a request does not say otherwise.
pub const DEFAULT_LIMIT: u32 = 50;

/// The subject on which the worker listens.
pub const WORKER_SUBJECT: &'static str = "tasks.insar";

/// How long the worker may take, in seconds.
pub const WORKER_TIMEOUT_SECS: u64 = 60;

// ── Routes ──

/// What answers a request.
#[derive(Clone, Copy, PartialEq, Eq, Debug)]
pub enum Route {
    Ui,
    StacSearch,
    Process,
    Sites,
    NotFound,
}

/// What answers a request with a method and a path.
pub open spec fn route_of(method: Seq<char>, path: Seq<char>) -> Route {
    if path == "/"@ {
        Route::Ui
    } else if method == "POST"@ && path == "/api/stac/search"@ {
        Route::StacSearch
    } else if method == "POST"@ && path == "/api/process"@ {
        Route::Process
    } else if method == "GET"@ && has_prefix(path, "/api/sites"@) {
        Route::Sites
    } else {
        Route::NotFound
    }
}

/// Finds what answers a request.
pub fn route(method: &str, path: &str) -> (route: Route)
    ensures
        route == route_of(method@, path@),
{
    if same_text(path, "/") {
        Route::Ui
    } else if same_text(method, "POST") && same_text(path, "/api/stac/search") {
        Route::StacSearch
    } else if same_text(method, "POST") && same_text(path, "/api/process") {
        Route::Process
    } else if same_text(method, "GET") && starts_with(path, "/api/sites") {
        Route::Sites
    } else {
        Route::NotFound
    }
}

// ── Replies ──

/// A reply to an HTTP request.
pub struct Reply {
    pub status: u16,
    pub headers: Vec<(&'static str, &'static str)>,
    pub body: Vec<u8>,
}

impl Reply {
    /// The texts of the headers.
    pub open spec fn header_texts(self) -> Seq<(Seq<char>, Seq<char>)> {
        self.headers@.map_values(|h: (&'static str, &'static str)| (h.0@, h.1@))
    }

    /// Whether the reply has a status, headers and a body.
    pub open spec fn consists_of(
        self,
        status: int,
        headers: Seq<(Seq<char>, Seq<char>)>,
        body: Seq<u8>,
    ) -> bool {
        &&& self.status == status
        &&& self.header_texts() == headers
        &&& self.body@ == body
    }

    /// Whether the reply hands JSON to any page that asks for it.
    pub open spec fn is_json(self, body: Seq<u8>) -> bool {
        self.consists_of(
            200,
            seq![
                ("Content-Type"@, "application/json"@),
                ("Access-Control-Allow-Origin"@, "*"@),
            ],
            body,
        )
    }
}

/// The reply with the user interface.
pub fn serve_ui(html: &str) -> (reply: Reply)
    ensures
        reply.consists_of(
            200,
            seq![("Content-Type"@, "text/html"@)],
            vstd::utf8::encode_utf8(html@),
        ),
{
    let mut headers: Vec<(&'static str, &'static str)> = Vec::new();
    headers.push(("Content-Type", "text/html"));
    let reply = Reply { status: 200, headers, body: bytes_of(html) };
    assert(reply.header_texts() =~= seq![("Content-Type"@, "text/html"@)]);
    reply
}

/// The reply where nothing answers a request.
pub fn not_found() -> (reply: Reply)
    ensures
        reply.consists_of(404, Seq::empty(), vstd::utf8::encode_utf8("Not found\n"@)),
{
    let reply = Reply { status: 404, headers: Vec::new(), body: bytes_of("Not found\n") };
    assert(reply.header_texts() =~= Seq::<(Seq<char>, Seq<char>)>::empty());
    reply
}

/// The reply with a JSON document.
pub fn json_reply(body: Vec<u8>) -> (reply: Reply)
    ensures
        reply.is_json(body@),
{
    let mut headers: Vec<(&'static str, &'static str)> = Vec::new();
    headers.push(("Content-Type", "application/json"));
    headers.push(("Access-Control-Allow-Origin", "*"));
    let reply = Reply { status: 200, headers, body };
    assert(reply.header_texts() =~= seq![
        ("Content-Type"@, "application/json"@),
        ("Access-Control-Allow-Origin"@, "*"@),
    ]);
    reply
}

/// The reply where the worker failed.
pub fn worker_failure(cause: &str) -> (reply: Reply)
    ensures
        reply.consists_of(502, Seq::empty(), vstd::utf8::encode_utf8("worker error: "@ + cause@)),
{
    let text = append_text("worker error: ", cause);
    let reply = Reply { status: 502, headers: Vec::new(), body: bytes_of(text.as_str()) };
    assert(reply.header_texts() =~= Seq::<(Seq<char>, Seq<char>)>::empty());
    reply
}

/// The UTF-8 bytes of a text.
fn bytes_of(text: &str) -> (bytes: Vec<u8>)
    ensures
        bytes@ == vstd::utf8::encode_utf8(text@),
{
    vstd::slice::slice_to_vec(text.as_bytes())
}

// ── Scene search ──

/// A search as the user asks for it.
pub struct StacSearchRequest<V> {
    pub bbox: [V; 4],
    pub datetime: String,
    pub collections: Option<Vec<String>>,
    pub limit: Option<u32>,
}

/// A search as the catalogue takes it.
pub struct StacQuery<V> {
    pub collections: Vec<String>,
    pub bbox: [V; 4],
    pub datetime: String,
    pub limit: u32,
}

/// A request to the catalogue.
pub struct CatalogueRequest {
    pub method: &'static str,
    pub url: String,
    pub headers: Vec<(&'static str, &'static str)>,
    pub body: Vec<u8>,
}

impl CatalogueRequest {
    /// The texts of the headers.
    pub open spec fn header_texts(self) -> Seq<(Seq<char>, Seq<char>)> {
        self.headers@.map_values(|h: (&'static str, &'static str)| (h.0@, h.1@))
    }

    /// Whether the request posts an encoded query to the catalogue's search, and asks for GeoJSON.
    pub open spec fn posts(self, body: Seq<u8>) -> bool {
        &&& self.method@ == "POST"@
        &&& self.url@ == STAC_BASE@ + "/search"@
        &&& self.header_texts() == seq![
            ("Content-Type"@, "application/json"@),
            ("Accept"@, "application/geo+json"@),
        ]
        &&& self.body@ == body
    }
}

/// What a search waits for.
#[derive(Clone, Copy, PartialEq, Eq, Debug)]
pub enum SearchState {
    Parsing,
    Encoding,
    Building,
    Sending,
    Receiving,
    Finished,
}

/// What came of an action.
pub enum SearchEvent<V> {
    Parsed(Result<StacSearchRequest<V>, String>),
    Encoded(Result<Vec<u8>, String>),
    Built(Result<(), String>),
    Sent(Result<(), String>),
    Received(Result<Vec<u8>, String>),
}

/// What to do next.
pub enum SearchAction<V> {
    /// Encode the query as JSON.
    Encode(StacQuery<V>),
    /// Build the request to the catalogue.
    Build(CatalogueRequest),
    /// Send the request to the catalogue.
    Send,
    /// Read the body of the catalogue's answer.
    Receive,
    /// Answer the user.
    Reply(Reply),
    /// Give up with a message.
    Fail(String),
}

impl SearchState {
    /// Whether the search waits for such an event.
    pub open spec fn awaits<V>(self, event: SearchEvent<V>) -> bool {
        match event {
            SearchEvent::Parsed(_) => self is Parsing,
            SearchEvent::Encoded(_) => self is Encoding,
            SearchEvent::Built(_) => self is Building,
            SearchEvent::Sent(_) => self is Sending,
            SearchEvent::Received(_) => self is Receiving,
        }
    }
}

/// Whether a query asks the catalogue for what the user asks for, with the defaults filled in.
pub open spec fn is_query_for<V>(request: StacSearchRequest<V>, query: StacQuery<V>) -> bool {
    &&& match request.collections {
        Some(collections) => query.collections == collections,
        None => query.collections@.len() == 1 && query.collections@[0]@ == DEFAULT_COLLECTION@,
    }
    &&& query.bbox == request.bbox
    &&& query.datetime@ == normalized_datetime(request.datetime@)
    &&& match request.limit {
        Some(limit) => query.limit == limit,
        None => query.limit == DEFAULT_LIMIT,
    }
}

/// Whether an action gives up with a message.
pub open spec fn search_fails_with<V>(action: SearchAction<V>, message: Seq<char>) -> bool {
    action matches SearchAction::Fail(text) && text@ == message
}

/// Whether a search goes on with a state and an action after an event.
pub open spec fn search_goes_on<V>(
    event: SearchEvent<V>,
    state: SearchState,
    action: SearchAction<V>,
) -> bool {
    match event {
        SearchEvent::Parsed(Ok(request)) => {
            &&& state is Encoding
            &&& action matches SearchAction::Encode(query) && is_query_for(request, query)
        },
        SearchEvent::Encoded(Ok(encoded)) => {
            &&& state is Building
            &&& action matches SearchAction::Build(request) && request.posts(encoded@)
        },
        SearchEvent::Built(Ok(_)) => state is Sending && action is Send,
        SearchEvent::Sent(Ok(_)) => state is Receiving && action is Receive,
        SearchEvent::Received(Ok(body)) => {
            &&& state is Finished
            &&& action matches SearchAction::Reply(reply) && reply.is_json(body@)
        },
        SearchEvent::Parsed(Err(e)) => {
            state is Finished && search_fails_with(action, "invalid request: "@ + e@)
        },
        SearchEvent::Encoded(Err(e)) => state is Finished && search_fails_with(action, e@),
        SearchEvent::Built(Err(e)) => {
            state is Finished && search_fails_with(action, "build request: "@ + e@)
        },
        SearchEvent::Sent(Err(e)) => {
            state is Finished && search_fails_with(action, "STAC request failed: "@ + e@)
        },
        SearchEvent::Received(Err(e)) => {
            state is Finished && search_fails_with(action, "read STAC response: "@ + e@)
        },
    }
}

/// The address that searches go to.
pub fn stac_search_url() -> (url: String)
    ensures
        url@ == STAC_BASE@ + "/search"@,
{
    append_text(STAC_BASE, "/search")
}

/// The request that takes an encoded query to the catalogue.
pub fn catalogue_request(body: Vec<u8>) -> (request: CatalogueRequest)
    ensures
        request.posts(body@),
{
    let mut headers: Vec<(&'static str, &'static str)> = Vec::new();
    headers.push(("Content-Type", "application/json"));
    headers.push(("Accept", "application/geo+json"));
    let request = CatalogueRequest { method: "POST", url: stac_search_url(), headers, body };
    assert(request.header_texts() =~= seq![
        ("Content-Type"@, "application/json"@),
        ("Accept"@, "application/geo+json"@),
    ]);
    request
}

/// Makes the catalogue's query of a search.
pub fn stac_query<V>(request: StacSearchRequest<V>) -> (query: StacQuery<V>)
    requires
        datetime_supported(request.datetime@),
    ensures
        is_query_for(request, query),
{
    let collections = match request.collections {
        Some(collections) => collections,
        None => {
            let mut collections: Vec<String> = Vec::new();
            collections.push(DEFAULT_COLLECTION.to_string());
            collections
        },
    };
    let datetime = normalize_datetime(request.datetime.as_str());
    let limit: u32 = match request.limit {
        Some(limit) => limit,
        None => DEFAULT_LIMIT,
    };
    StacQuery { collections, bbox: request.bbox, datetime, limit }
}

/// Takes a search one step further.
pub fn stac_search<V>(state: SearchState, event: SearchEvent<V>) -> (next: (
    SearchState,
    SearchAction<V>,
))
    requires
        state.awaits(event),
        event matches SearchEvent::Parsed(Ok(request)) ==> datetime_supported(request.datetime@),
    ensures
        search_goes_on(event, next.0, next.1),
{
    match event {
        SearchEvent::Parsed(Ok(request)) => {
            (SearchState::Encoding, SearchAction::Encode(stac_query(request)))
        },
        SearchEvent::Encoded(Ok(body)) => {
            (SearchState::Building, SearchAction::Build(catalogue_request(body)))
        },
        SearchEvent::Built(Ok(_)) => (SearchState::Sending, SearchAction::Send),
        SearchEvent::Sent(Ok(_)) => (SearchState::Receiving, SearchAction::Receive),
        SearchEvent::Received(Ok(body)) => {
            (SearchState::Finished, SearchAction::Reply(json_reply(body)))
        },
        SearchEvent::Parsed(Err(e)) => search_failure("invalid request: ", e.as_str()),
        SearchEvent::Encoded(Err(e)) => (SearchState::Finished, SearchAction::Fail(e)),
        SearchEvent::Built(Err(e)) => search_failure("build request: ", e.as_str()),
        SearchEvent::Sent(Err(e)) => search_failure("STAC request failed: ", e.as_str()),
        SearchEvent::Received(Err(e)) => search_failure("read STAC response: ", e.as_str()),
    }
}

/// The end of a search that could not be carried out.
fn search_failure<V>(stage: &str, cause: &str) -> (next: (SearchState, SearchAction<V>))
    ensures
        next.0 is Finished,
        search_fails_with(next.1, stage@ + cause@),
{
    (SearchState::Finished, SearchAction::Fail(append_text(stage, cause)))
}

// ── Processing ──

/// What a processing request waits for.
#[derive(Clone, Copy, PartialEq, Eq, Debug)]
pub enum ForwardState {
    Reading,
    Working,
    Finished,
}

/// What came of an action.
pub enum ForwardEvent {
    Read(Result<Vec<u8>, String>),
    Answered(Result<Vec<u8>, String>),
}

/// What to do next.
pub enum ForwardAction {
    /// Send a request to the worker and wait for its answer.
    Request { subject: &'static str, body: Vec<u8>, timeout_ms: u32 },
    /// Answer the user.
    Reply(Reply),
    /// Give up with a message.
    Fail(String),
}

impl ForwardState {
    /// Whether the processing request waits for such an event.
    pub open spec fn awaits(self, event: ForwardEvent) -> bool {
        match event {
            ForwardEvent::Read(_) => self is Reading,
            ForwardEvent::Answered(_) => self is Working,
        }
    }
}

/// Whether a processing request goes on with a state and an action after an event.
pub open spec fn forward_goes_on(
    event: ForwardEvent,
    state: ForwardState,
    action: ForwardAction,
) -> bool {
    match event {
        ForwardEvent::Read(Ok(sent)) => {
            &&& state is Working
            &&& action matches ForwardAction::Request { subject, body, timeout_ms } && subject@
                == WORKER_SUBJECT@ && body == sent && timeout_ms == 60_000
        },
        ForwardEvent::Answered(Ok(body)) => {
            &&& state is Finished
            &&& action matches ForwardAction::Reply(reply) && reply.is_json(body@)
        },
        ForwardEvent::Read(Err(e)) => {
            &&& state is Finished
            &&& action matches ForwardAction::Fail(text) && text@ == "read body: "@ + e@
        },
        ForwardEvent::Answered(Err(e)) => {
            &&& state is Finished
            &&& action matches ForwardAction::Reply(reply) && reply.consists_of(
                502,
                Seq::empty(),
                vstd::utf8::encode_utf8("worker error: "@ + e@),
            )
        },
    }
}

/// Whole seconds in milliseconds.
///
/// Calls `wstd::time::Duration::from_secs` and `as_millis`: the duration is held as nanoseconds in
/// 64 bits, and `from_secs` panics where they do not fit.
#[verifier::external_body]
fn millis_of_secs(secs: u64) -> (millis: u128)
    requires
        secs * 1_000_000_000 <= u64::MAX,
    ensures
        millis == secs * 1000,
{
    wstd::time::Duration::from_secs(secs).as_millis()
}

/// How long the worker may take, in milliseconds.
pub fn worker_timeout_ms() -> (millis: u32)
    ensures
        millis == 60_000,
{
    millis_of_secs(WORKER_TIMEOUT_SECS) as u32
}

/// Takes a processing request one step further.
pub fn process_insar(state: ForwardState, event: ForwardEvent) -> (next: (
    ForwardState,
    ForwardAction,
))
    requires
        state.awaits(event),
    ensures
        forward_goes_on(event, next.0, next.1),
{
    match event {
        ForwardEvent::Read(Ok(body)) => (
            ForwardState::Working,
            ForwardAction::Request {
                subject: WORKER_SUBJECT,
                body,
                timeout_ms: worker_timeout_ms(),
            },
        ),
        ForwardEvent::Answered(Ok(body)) => {
            (ForwardState::Finished, ForwardAction::Reply(json_reply(body)))
        },
        ForwardEvent::Read(Err(e)) => {
            (ForwardState::Finished, ForwardAction::Fail(append_text("read body: ", e.as_str())))
        },
        ForwardEvent::Answered(Err(e)) => {
            (ForwardState::Finished, ForwardAction::Reply(worker_failure(e.as_str())))
        },
    }
}

// ── Laws ──

/// The root path shows the user interface, whatever the method.
pub proof fn root_shows_the_ui(method: Seq<char>)
    ensures
        route_of(method, "/"@) is Ui,
{
}

/// Nothing but the root answers to a method other than `GET` and `POST`, and each part of the
/// interface answers to one of them only.
pub proof fn each_route_has_its_method(method: Seq<char>, path: Seq<char>)
    ensures
        route_of(method, path) is Sites ==> method == "GET"@,
        route_of(method, path) is StacSearch ==> method == "POST"@ && path == "/api/stac/search"@,
        route_of(method, path) is Process ==> method == "POST"@ && path == "/api/process"@,
        method != "GET"@ && method != "POST"@ && path != "/"@ ==> route_of(
            method,
            path,
        ) is NotFound,
{
}

/// A search gives up after an error and after nothing else, and is then finished.
pub proof fn search_fails_on_errors_only<V>(
    event: SearchEvent<V>,
    state: SearchState,
    action: SearchAction<V>,
)
    requires
        search_goes_on(event, state, action),
    ensures
        action is Fail <==> match event {
            SearchEvent::Parsed(result) => result is Err,
            SearchEvent::Encoded(result) => result is Err,
            SearchEvent::Built(result) => result is Err,
            SearchEvent::Sent(result) => result is Err,
            SearchEvent::Received(result) => result is Err,
        },
        state is Finished <==> action is Fail || action is Reply,
{
}

/// How far a search has come.
pub open spec fn search_progress(state: SearchState) -> int {
    match state {
        SearchState::Parsing => 0,
        SearchState::Encoding => 1,
        SearchState::Building => 2,
        SearchState::Sending => 3,
        SearchState::Receiving => 4,
        SearchState::Finished => 5,
    }
}

/// A search only goes forward: every step brings it closer to its end, and the step that sends the
/// request is taken once.
pub proof fn search_goes_forward<V>(
    before: SearchState,
    event: SearchEvent<V>,
    after: SearchState,
    action: SearchAction<V>,
)
    requires
        before.awaits(event),
        search_goes_on(event, after, action),
    ensures
        search_progress(before) < search_progress(after),
        action is Send <==> after is Sending,
{
}

/// What is posted to the catalogue is the query of the search: the encoding of what the user asks
/// for, with the defaults filled in, goes out as it is.
pub proof fn search_posts_its_query<V>(
    request: StacSearchRequest<V>,
    state1: SearchState,
    action1: SearchAction<V>,
    encoded: Vec<u8>,
    state2: SearchState,
    action2: SearchAction<V>,
)
    requires
        search_goes_on(SearchEvent::Parsed(Ok(request)), state1, action1),
        search_goes_on(SearchEvent::<V>::Encoded(Ok(encoded)), state2, action2),
    ensures
        state1.awaits(SearchEvent::<V>::Encoded(Ok(encoded))),
        action1 matches SearchAction::Encode(query) && is_query_for(request, query),
        action2 matches SearchAction::Build(posted) && posted.posts(encoded@),
{
}

/// The dates of a query are in the form that the catalogue takes: normalizing them again changes
/// nothing.
pub proof fn query_dates_are_normalized<V>(request: StacSearchRequest<V>, query: StacQuery<V>)
    requires
        datetime_supported(request.datetime@),
        is_query_for(request, query),
    ensures
        normalized_datetime(query.datetime@) == query.datetime@,
{
    normalizing_is_idempotent(request.datetime@);
}

} // verus!
