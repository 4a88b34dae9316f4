use geoint_playback::http_api::{
    json_reply, not_found, process_insar, route, serve_ui, stac_query, stac_search, stac_search_url,
    worker_failure, worker_timeout_ms, ForwardAction, ForwardEvent, ForwardState, Route,
    SearchAction, SearchEvent, SearchState, StacSearchRequest,
};

fn request(collections: Option<Vec<String>>, limit: Option<u32>) -> StacSearchRequest<f64> {
    StacSearchRequest {
        bbox: [-118.4, 34.0, -118.2, 34.1],
        datetime: "2024-01-01/2024-06-30".to_string(),
        collections,
        limit,
    }
}

#[test]
fn routes_lead_to_their_handlers() {
    assert_eq!(route("GET", "/"), Route::Ui);
    assert_eq!(route("DELETE", "/"), Route::Ui);
    assert_eq!(route("POST", "/api/stac/search"), Route::StacSearch);
    assert_eq!(route("POST", "/api/process"), Route::Process);
    assert_eq!(route("GET", "/api/sites"), Route::Sites);
    assert_eq!(route("GET", "/api/sites/extra"), Route::Sites);
    assert_eq!(route("GET", "/api/sitesmap"), Route::Sites);
}

#[test]
fn everything_else_is_not_found() {
    assert_eq!(route("GET", "/api/stac/search"), Route::NotFound);
    assert_eq!(route("GET", "/api/process"), Route::NotFound);
    assert_eq!(route("POST", "/api/sites"), Route::NotFound);
    assert_eq!(route("POST", "/api/process/"), Route::NotFound);
    assert_eq!(route("PUT", "/api/process"), Route::NotFound);
    assert_eq!(route("post", "/api/process"), Route::NotFound);
    assert_eq!(route("GET", ""), Route::NotFound);
}

#[test]
fn replies_carry_their_headers() {
    let ui = serve_ui("<p>ü</p>");
    assert_eq!(ui.status, 200);
    assert_eq!(ui.headers, vec![("Content-Type", "text/html")]);
    assert_eq!(ui.body, "<p>ü</p>".as_bytes());

    let missing = not_found();
    assert_eq!(missing.status, 404);
    assert!(missing.headers.is_empty());
    assert_eq!(missing.body, b"Not found\n");

    let json = json_reply(vec![1, 2, 3]);
    assert_eq!(json.status, 200);
    assert_eq!(
        json.headers,
        vec![("Content-Type", "application/json"), ("Access-Control-Allow-Origin", "*")]
    );
    assert_eq!(json.body, vec![1, 2, 3]);

    let failed = worker_failure("timeout");
    assert_eq!(failed.status, 502);
    assert!(failed.headers.is_empty());
    assert_eq!(failed.body, b"worker error: timeout");
}

#[test]
fn searches_go_to_the_catalogue() {
    assert_eq!(stac_search_url(), "https://earth-search.aws.element84.com/v1/search");
}

#[test]
fn queries_are_filled_in() {
    let query = stac_query(request(None, None));
    assert_eq!(query.collections, vec!["sentinel-1-grd".to_string()]);
    assert_eq!(query.limit, 50);
    assert_eq!(query.bbox, [-118.4, 34.0, -118.2, 34.1]);
    assert_eq!(query.datetime, "2024-01-01T00:00:00Z/2024-06-30T23:59:59Z");

    let query = stac_query(request(Some(vec!["a".to_string(), "b".to_string()]), Some(7)));
    assert_eq!(query.collections, vec!["a".to_string(), "b".to_string()]);
    assert_eq!(query.limit, 7);

    let query = stac_query(request(Some(Vec::new()), Some(0)));
    assert!(query.collections.is_empty());
    assert_eq!(query.limit, 0);
}

#[test]
fn a_search_relays_the_answer() {
    let (state, action) = stac_search(SearchState::Parsing, SearchEvent::Parsed(Ok(request(None, None))));
    assert_eq!(state, SearchState::Encoding);
    assert!(matches!(action, SearchAction::Encode(_)));
    let (state, action) = stac_search::<f64>(state, SearchEvent::Encoded(Ok(b"[]".to_vec())));
    assert_eq!(state, SearchState::Building);
    match action {
        SearchAction::Build(request) => {
            assert_eq!(request.method, "POST");
            assert_eq!(request.url, "https://earth-search.aws.element84.com/v1/search");
            assert_eq!(
                request.headers,
                vec![("Content-Type", "application/json"), ("Accept", "application/geo+json")]
            );
            assert_eq!(request.body, b"[]");
        }
        _ => panic!("no request"),
    }
    let (state, action) = stac_search::<f64>(state, SearchEvent::Built(Ok(())));
    assert_eq!(state, SearchState::Sending);
    assert!(matches!(action, SearchAction::Send));
    let (state, action) = stac_search::<f64>(state, SearchEvent::Sent(Ok(())));
    assert_eq!(state, SearchState::Receiving);
    assert!(matches!(action, SearchAction::Receive));
    let (state, action) = stac_search::<f64>(state, SearchEvent::Received(Ok(b"{}".to_vec())));
    assert_eq!(state, SearchState::Finished);
    match action {
        SearchAction::Reply(reply) => {
            assert_eq!(reply.status, 200);
            assert_eq!(reply.body, b"{}");
        }
        _ => panic!("no reply"),
    }
}

fn search_failure(state: SearchState, event: SearchEvent<f64>) -> String {
    match stac_search(state, event) {
        (SearchState::Finished, SearchAction::Fail(text)) => text,
        _ => panic!("no failure"),
    }
}

#[test]
fn a_search_reports_every_error() {
    let e = || Err("x".to_string());
    assert_eq!(
        search_failure(SearchState::Parsing, SearchEvent::Parsed(Err("x".to_string()))),
        "invalid request: x"
    );
    assert_eq!(search_failure(SearchState::Encoding, SearchEvent::Encoded(Err("x".to_string()))), "x");
    assert_eq!(search_failure(SearchState::Building, SearchEvent::Built(e())), "build request: x");
    assert_eq!(search_failure(SearchState::Sending, SearchEvent::Sent(e())), "STAC request failed: x");
    assert_eq!(
        search_failure(SearchState::Receiving, SearchEvent::Received(Err("x".to_string()))),
        "read STAC response: x"
    );
}

#[test]
fn the_worker_has_a_minute() {
    assert_eq!(worker_timeout_ms(), 60_000);
}

#[test]
fn processing_is_forwarded_to_the_worker() {
    let (state, action) = process_insar(ForwardState::Reading, ForwardEvent::Read(Ok(vec![7, 8])));
    assert_eq!(state, ForwardState::Working);
    match action {
        ForwardAction::Request { subject, body, timeout_ms } => {
            assert_eq!(subject, "tasks.insar");
            assert_eq!(body, vec![7, 8]);
            assert_eq!(timeout_ms, 60_000);
        }
        _ => panic!("no request"),
    }
    let (state, action) = process_insar(state, ForwardEvent::Answered(Ok(vec![9])));
    assert_eq!(state, ForwardState::Finished);
    match action {
        ForwardAction::Reply(reply) => {
            assert_eq!(reply.status, 200);
            assert_eq!(reply.body, vec![9]);
        }
        _ => panic!("no reply"),
    }
}

#[test]
fn processing_errors_are_reported() {
    match process_insar(ForwardState::Reading, ForwardEvent::Read(Err("x".to_string()))) {
        (ForwardState::Finished, ForwardAction::Fail(text)) => assert_eq!(text, "read body: x"),
        _ => panic!("no failure"),
    }
    match process_insar(ForwardState::Working, ForwardEvent::Answered(Err("gone".to_string()))) {
        (ForwardState::Finished, ForwardAction::Reply(reply)) => {
            assert_eq!(reply.status, 502);
            assert_eq!(reply.body, b"worker error: gone");
        }
        _ => panic!("no reply"),
    }
}
