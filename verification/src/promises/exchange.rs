//! Routes, replies and the steps of an exchange.
use vstd::prelude::*;
use vstd::utf8::encode_utf8;
use crate::datetime::normalized_datetime;
use crate::http_api::{
    catalogue_request, json_reply, not_found, process_insar, route, serve_ui, stac_query,
    stac_search, stac_search_url, worker_failure, worker_timeout_ms, CatalogueRequest,
    ForwardAction, ForwardEvent, ForwardState, Reply, Route, SearchAction, SearchEvent, SearchState,
    StacQuery, StacSearchRequest,
};
use crate::insar::{is_processed, ProcessingParams};
use crate::numerics::Numerics;
use crate::promises::results::lemma_unpacked;
use crate::promises::scenes::dated_features_are_kept;
use crate::scenes::StacFeature;
use crate::worker::{
    are_default_params, handle_message, ProcessRequest, WorkerAction, WorkerEvent, WorkerState,
};

verus! {

/// Every request has its route: the root shows the page whatever the method, a search and a
/// processing request are posted to their own paths, every path behind `/api/sites` lists the
/// sites, and nothing else is there.
pub proof fn requests_find_their_routes(method: &str, path: &str, r: Route)
    requires
        call_ensures(route, (method, path), r),
    ensures
        r is Ui <==> path@ == "/"@,
        r is StacSearch <==> method@ == "POST"@ && path@ == "/api/stac/search"@,
        r is Process <==> method@ == "POST"@ && path@ == "/api/process"@,
        r is Sites <==> method@ == "GET"@ && exists|rest: Seq<char>|
            path@ == #[trigger] ("/api/sites"@ + rest),
{
    reveal_strlit("/");
    reveal_strlit("POST");
    reveal_strlit("GET");
    reveal_strlit("/api/stac/search");
    reveal_strlit("/api/process");
    reveal_strlit("/api/sites");
    assert("/"@.len() == 1 && "/api/stac/search"@.len() == 16 && "/api/process"@.len() == 12);
    assert("POST"@.len() == 4 && "GET"@.len() == 3 && "/api/sites"@.len() == 10);
    if r is Sites {
        assert(path@ =~= "/api/sites"@ + path@.skip(10));
    }
    if exists|rest: Seq<char>| path@ == #[trigger] ("/api/sites"@ + rest) {
        let rest = choose|rest: Seq<char>| path@ == #[trigger] ("/api/sites"@ + rest);
        assert(path@.take(10) =~= "/api/sites"@);
    }
}

/// The replies carry their status, their headers and their body.
pub proof fn replies_carry_what_they_say(
    html: &str,
    page: Reply,
    nothing: Reply,
    body: Vec<u8>,
    json: Reply,
    cause: &str,
    failure: Reply,
)
    requires
        call_ensures(serve_ui, (html,), page),
        call_ensures(not_found, (), nothing),
        call_ensures(json_reply, (body,), json),
        call_ensures(worker_failure, (cause,), failure),
    ensures
        page.status == 200,
        page.headers@.len() == 1,
        page.headers@[0].0@ == "Content-Type"@,
        page.headers@[0].1@ == "text/html"@,
        page.body@ == encode_utf8(html@),
        nothing.status == 404,
        nothing.headers@.len() == 0,
        nothing.body@ == encode_utf8("Not found\n"@),
        json.status == 200,
        json.headers@.len() == 2,
        json.headers@[0].0@ == "Content-Type"@,
        json.headers@[0].1@ == "application/json"@,
        json.headers@[1].0@ == "Access-Control-Allow-Origin"@,
        json.headers@[1].1@ == "*"@,
        json.body@ == body@,
        failure.status == 502,
        failure.headers@.len() == 0,
        failure.body@ == encode_utf8("worker error: "@ + cause@),
{
    assert(page.header_texts().len() == 1 && page.header_texts()[0] == (
        "Content-Type"@,
        "text/html"@,
    ));
    assert(nothing.header_texts().len() == 0);
    assert(json.header_texts().len() == 2);
    assert(json.header_texts()[0] == ("Content-Type"@, "application/json"@));
    assert(json.header_texts()[1] == ("Access-Control-Allow-Origin"@, "*"@));
    assert(failure.header_texts().len() == 0);
}

/// The query asks for what the user asks for: every limit, every list of collections and every box
/// reaches the catalogue as it is; where none is given, the limit is 50 and the collection
/// `sentinel-1-grd`.
pub proof fn query_asks_for_what_the_user_asks_for<V>(
    request: StacSearchRequest<V>,
    query: StacQuery<V>,
)
    requires
        call_ensures(stac_query::<V>, (request,), query),
    ensures
        forall|n: u32| request.limit == Some(n) ==> query.limit == n,
        request.limit is None ==> query.limit == 50,
        forall|c: Vec<String>| request.collections == Some(c) ==> query.collections == c,
        request.collections is None ==> query.collections@.len() == 1 && query.collections@[0]@
            == "sentinel-1-grd"@,
        query.bbox == request.bbox,
        query.datetime@ == normalized_datetime(request.datetime@),
{
}

/// A request to the catalogue posts the encoded query, whatever it is, and the worker has a minute.
pub proof fn catalogue_gets_the_query(
    body: Vec<u8>,
    outgoing: CatalogueRequest,
    url: String,
    millis: u32,
)
    requires
        call_ensures(catalogue_request, (body,), outgoing),
        call_ensures(stac_search_url, (), url),
        call_ensures(worker_timeout_ms, (), millis),
    ensures
        outgoing.method@ == "POST"@,
        outgoing.url@ == "https://earth-search.aws.element84.com/v1"@ + "/search"@,
        outgoing.headers@.len() == 2,
        outgoing.headers@[0].0@ == "Content-Type"@,
        outgoing.headers@[0].1@ == "application/json"@,
        outgoing.headers@[1].0@ == "Accept"@,
        outgoing.headers@[1].1@ == "application/geo+json"@,
        outgoing.body@ == body@,
        url@ == outgoing.url@,
        millis == 60000,
{
    let texts = outgoing.header_texts();
    assert(texts.len() == 2);
    assert(texts[0] == ("Content-Type"@, "application/json"@));
    assert(texts[1] == ("Accept"@, "application/geo+json"@));
}

/// A search hands the user's request on to the catalogue: the query that is encoded keeps limit,
/// collections and box, what was encoded is what is posted, to the catalogue's search and with the
/// headers that it wants, and what the catalogue answers is what the user gets.
pub proof fn search_relays_request_and_answer<V>(
    request: StacSearchRequest<V>,
    asked: (SearchState, SearchAction<V>),
    encoded: Vec<u8>,
    posted: (SearchState, SearchAction<V>),
    built: (SearchState, SearchAction<V>),
    sent: (SearchState, SearchAction<V>),
    body: Vec<u8>,
    answered: (SearchState, SearchAction<V>),
)
    requires
        call_ensures(
            stac_search::<V>,
            (SearchState::Parsing, SearchEvent::Parsed(Ok(request))),
            asked,
        ),
        call_ensures(
            stac_search::<V>,
            (asked.0, SearchEvent::Encoded(Ok(encoded))),
            posted,
        ),
        call_ensures(stac_search::<V>, (posted.0, SearchEvent::Built(Ok(()))), built),
        call_ensures(stac_search::<V>, (built.0, SearchEvent::Sent(Ok(()))), sent),
        call_ensures(stac_search::<V>, (sent.0, SearchEvent::Received(Ok(body))), answered),
    ensures
        asked.1 matches SearchAction::Encode(query) && {
            &&& forall|n: u32| request.limit == Some(n) ==> query.limit == n
            &&& request.limit is None ==> query.limit == 50
            &&& forall|c: Vec<String>| request.collections == Some(c) ==> query.collections == c
            &&& request.collections is None ==> query.collections@.len() == 1
                && query.collections@[0]@ == "sentinel-1-grd"@
            &&& query.bbox == request.bbox
            &&& query.datetime@ == normalized_datetime(request.datetime@)
        },
        posted.1 matches SearchAction::Build(outgoing) && {
            &&& outgoing.method@ == "POST"@
            &&& outgoing.url@ == "https://earth-search.aws.element84.com/v1"@ + "/search"@
            &&& outgoing.headers@.len() == 2
            &&& outgoing.headers@[0].0@ == "Content-Type"@
            &&& outgoing.headers@[0].1@ == "application/json"@
            &&& outgoing.headers@[1].0@ == "Accept"@
            &&& outgoing.headers@[1].1@ == "application/geo+json"@
            &&& outgoing.body@ == encoded@
        },
        built.1 is Send,
        sent.1 is Receive,
        answered.0 is Finished,
        answered.1 matches SearchAction::Reply(reply) && {
            &&& reply.status == 200
            &&& reply.headers@.len() == 2
            &&& reply.headers@[0].0@ == "Content-Type"@
            &&& reply.headers@[0].1@ == "application/json"@
            &&& reply.headers@[1].0@ == "Access-Control-Allow-Origin"@
            &&& reply.headers@[1].1@ == "*"@
            &&& reply.body@ == body@
        },
        asked.0 is Encoding,
        posted.0 is Building,
        built.0 is Sending,
        sent.0 is Receiving,
{
    if let SearchAction::Build(outgoing) = posted.1 {
        let texts = outgoing.header_texts();
        assert(texts.len() == 2);
        assert(texts[0] == ("Content-Type"@, "application/json"@));
        assert(texts[1] == ("Accept"@, "application/geo+json"@));
    }
    if let SearchAction::Reply(reply) = answered.1 {
        assert(reply.header_texts().len() == 2);
        assert(reply.header_texts()[0] == ("Content-Type"@, "application/json"@));
        assert(reply.header_texts()[1] == ("Access-Control-Allow-Origin"@, "*"@));
    }
}

/// A search that cannot go on says why: whatever the cause, it is told in full, behind the stage at
/// which it came up.
pub proof fn search_tells_every_cause<V>(
    state: SearchState,
    cause: String,
    parsed: (SearchState, SearchAction<V>),
    encoded: (SearchState, SearchAction<V>),
    built: (SearchState, SearchAction<V>),
    sent: (SearchState, SearchAction<V>),
    received: (SearchState, SearchAction<V>),
)
    requires
        call_ensures(stac_search::<V>, (state, SearchEvent::Parsed(Err(cause))), parsed),
        call_ensures(stac_search::<V>, (state, SearchEvent::Encoded(Err(cause))), encoded),
        call_ensures(stac_search::<V>, (state, SearchEvent::Built(Err(cause))), built),
        call_ensures(stac_search::<V>, (state, SearchEvent::Sent(Err(cause))), sent),
        call_ensures(stac_search::<V>, (state, SearchEvent::Received(Err(cause))), received),
    ensures
        parsed.1 matches SearchAction::Fail(text) && text@ == "invalid request: "@ + cause@,
        encoded.1 matches SearchAction::Fail(text) && text@ == cause@,
        built.1 matches SearchAction::Fail(text) && text@ == "build request: "@ + cause@,
        sent.1 matches SearchAction::Fail(text) && text@ == "STAC request failed: "@ + cause@,
        received.1 matches SearchAction::Fail(text) && text@ == "read STAC response: "@ + cause@,
        parsed.0 is Finished,
        encoded.0 is Finished,
        built.0 is Finished,
        sent.0 is Finished,
        received.0 is Finished,
{
}

/// A processing request reaches the worker byte by byte, has a minute, and the user gets the
/// worker's answer byte by byte, or the worker's error in full.
pub proof fn processing_is_relayed(
    state: ForwardState,
    body: Vec<u8>,
    cause: String,
    read: (ForwardState, ForwardAction),
    unread: (ForwardState, ForwardAction),
    answered: (ForwardState, ForwardAction),
    failed: (ForwardState, ForwardAction),
)
    requires
        call_ensures(process_insar, (state, ForwardEvent::Read(Ok(body))), read),
        call_ensures(process_insar, (state, ForwardEvent::Read(Err(cause))), unread),
        call_ensures(process_insar, (state, ForwardEvent::Answered(Ok(body))), answered),
        call_ensures(process_insar, (state, ForwardEvent::Answered(Err(cause))), failed),
    ensures
        read.0 is Working,
        read.1 matches ForwardAction::Request { subject, body: sent, timeout_ms } && subject@
            == "tasks.insar"@ && sent@ == body@ && timeout_ms == 60000,
        unread.0 is Finished,
        unread.1 matches ForwardAction::Fail(text) && text@ == "read body: "@ + cause@,
        answered.0 is Finished,
        answered.1 matches ForwardAction::Reply(reply) && {
            &&& reply.status == 200
            &&& reply.headers@.len() == 2
            &&& reply.headers@[0].0@ == "Content-Type"@
            &&& reply.headers@[0].1@ == "application/json"@
            &&& reply.headers@[1].0@ == "Access-Control-Allow-Origin"@
            &&& reply.headers@[1].1@ == "*"@
            &&& reply.body@ == body@
        },
        failed.0 is Finished,
        failed.1 matches ForwardAction::Reply(reply) && reply.status == 502 && reply.headers@.len()
            == 0 && reply.body@ == encode_utf8("worker error: "@ + cause@),
{
    if let ForwardAction::Reply(reply) = failed.1 {
        assert(reply.header_texts().len() == 0);
    }
    if let ForwardAction::Reply(reply) = answered.1 {
        assert(reply.header_texts().len() == 2);
        assert(reply.header_texts()[0] == ("Content-Type"@, "application/json"@));
        assert(reply.header_texts()[1] == ("Access-Control-Allow-Origin"@, "*"@));
    }
}

/// The worker answers where the message asks for it, with what was encoded, and tells every cause
/// of a failure in full.
pub proof fn worker_answers_and_tells_every_cause<K: Numerics>(
    k: &K,
    subject: String,
    cause: String,
    encoded: Vec<u8>,
    outcome: Result<(), String>,
    arrived: (WorkerState, WorkerAction<K::Value>),
    lost: (WorkerState, WorkerAction<K::Value>),
    unparsed: (WorkerState, WorkerAction<K::Value>),
    published: (WorkerState, WorkerAction<K::Value>),
    unencoded: (WorkerState, WorkerAction<K::Value>),
    finished: (WorkerState, WorkerAction<K::Value>),
)
    requires
        call_ensures(
            handle_message::<K>,
            (k, WorkerState::Arriving, WorkerEvent::Arrived { reply_to: Some(subject) }),
            arrived,
        ),
        call_ensures(
            handle_message::<K>,
            (k, WorkerState::Arriving, WorkerEvent::Arrived { reply_to: None }),
            lost,
        ),
        call_ensures(
            handle_message::<K>,
            (k, WorkerState::Parsing { subject }, WorkerEvent::Parsed(Err(cause))),
            unparsed,
        ),
        call_ensures(
            handle_message::<K>,
            (k, WorkerState::Encoding { subject }, WorkerEvent::Encoded(Ok(encoded))),
            published,
        ),
        call_ensures(
            handle_message::<K>,
            (k, WorkerState::Encoding { subject }, WorkerEvent::Encoded(Err(cause))),
            unencoded,
        ),
        call_ensures(
            handle_message::<K>,
            (k, WorkerState::Publishing, WorkerEvent::Published(outcome)),
            finished,
        ),
    ensures
        arrived.1 is Parse,
        arrived.0 matches WorkerState::Parsing { subject: kept } && kept@ == subject@,
        lost.0 is Finished,
        lost.1 matches WorkerAction::Finish(Err(text)) && text@ == "missing reply_to"@,
        unparsed.0 is Finished,
        unparsed.1 matches WorkerAction::Finish(Err(text)) && text@ == "invalid request: "@
            + cause@,
        published.0 is Publishing,
        published.1 matches WorkerAction::Publish(message) && message.subject@ == subject@
            && message.body@ == encoded@ && message.reply_to is None,
        unencoded.0 is Finished,
        unencoded.1 matches WorkerAction::Finish(Err(text)) && text@ == "serialize result: "@
            + cause@,
        finished.0 is Finished,
        finished.1 == WorkerAction::<K::Value>::Finish(outcome),
{
}

/// A request is processed with a grid of 20 cells and a least coherence of 0.4, for its own box and
/// features; the result goes on to be encoded for the subject that waits for it. A request with
/// fewer than two dated features is refused, with the reason.
pub proof fn requests_are_processed_with_the_usual_parameters<K: Numerics>(
    k: &K,
    subject: String,
    request: ProcessRequest<K::Value>,
    next: (WorkerState, WorkerAction<K::Value>),
)
    requires
        call_ensures(
            handle_message::<K>,
            (k, WorkerState::Parsing { subject }, WorkerEvent::Parsed(Ok(request))),
            next,
        ),
    ensures
        ({
            let kept = request.features@.filter(|f: StacFeature| f.properties.datetime is Some);
            &&& kept.len() >= 2 ==> {
                &&& next.0 is Encoding
                &&& next.0->Encoding_subject@ == subject@
                &&& next.1 is Encode
                &&& next.1->Encode_0.bbox == request.bbox
                &&& next.1->Encode_0.grid_w == 20
                &&& next.1->Encode_0.grid_h == 20
                &&& next.1->Encode_0.frames.len() == kept.len()
                &&& exists|params: ProcessingParams<K::Value>|
                    {
                        &&& params.grid_size == 20
                        &&& call_ensures(K::decimal, (k, 4i64, 1u32), params.min_coherence)
                        &&& #[trigger] is_processed(
                            k,
                            request.bbox,
                            request.features@,
                            params,
                            next.1->Encode_0,
                        )
                    }
            }
            &&& kept.len() < 2 ==> {
                &&& next.0 is Finished
                &&& next.1 is Finish
                &&& next.1->Finish_0 is Err
                &&& request.features@.len() == 0 ==> next.1->Finish_0->Err_0@
                    == "processing failed: "@ + "no scenes provided"@
                &&& request.features@.len() > 0 ==> next.1->Finish_0->Err_0@
                    == "processing failed: "@ + "need at least 2 scenes for interferometry"@
            }
        }),
{
    dated_features_are_kept(request.features@);
    let kept = request.features@.filter(|f: StacFeature| f.properties.datetime is Some);
    if kept.len() >= 2 {
        let r = next.1->Encode_0;
        let params = choose|params: ProcessingParams<K::Value>| #[trigger]
            are_default_params(k, params) && is_processed(
                k,
                request.bbox,
                request.features@,
                params,
                r,
            );
        lemma_unpacked(k, request.bbox, request.features@, params, r);
    }
}

} // verus!
