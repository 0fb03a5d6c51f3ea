use cloudstate::request::{
    runner_error_response, fetch_response, method_answer, method_response, ErrorData, ResponseData, ScriptResponseResult,
    error_response, fetch_request_script, headers_json, initialize_script, json_string, method_headers_json,
    method_request_parts, method_request_script, ClassesSource, RequestError,
};

const FETCH_TEMPLATE: &str =
    "env=$ENV_STRING;inv=$INVALIDATE_ENDPOINT;uri=$URI;id=$ID;m=$HTTP_METHOD;h=$HEADERS";
const METHOD_TEMPLATE: &str =
    "env=$ENV_STRING uri=$URI h=$HEADERS inv=$INVALIDATE_ENDPOINT id=$ID m=$METHOD p=$PARAMS";
const RUN_TEMPLATE: &str = "run(env_string, run_script, invalidate_endpoint)";

fn headers(pairs: &[(&str, Option<&str>)]) -> Vec<(String, Result<String, String>)> {
    pairs
        .iter()
        .map(|(k, v)| {
            (k.to_string(), v.map(|x| x.to_string()).ok_or_else(|| format!("bad value of {}", k)))
        })
        .collect()
}

#[test]
fn json_string_escapes() {
    assert_eq!(json_string("plain"), "\"plain\"");
    assert_eq!(json_string("a\"b\\c"), "\"a\\\"b\\\\c\"");
    assert_eq!(json_string("\n\t\r\u{8}\u{c}"), "\"\\n\\t\\r\\b\\f\"");
    assert_eq!(json_string("\u{1}\u{1f}"), "\"\\u0001\\u001f\"");
    assert_eq!(json_string("é/ü"), "\"é/ü\"");
    assert_eq!(json_string(""), "\"\"");
}

#[test]
fn headers_as_json_object() {
    let h = headers(&[("host", Some("localhost")), ("x-bin", None), ("accept", Some("*/*"))]);
    assert_eq!(
        headers_json(&h),
        "{\"host\": \"localhost\", \"x-bin\": \"\", \"accept\": \"*/*\"}"
    );
    assert_eq!(headers_json(&Vec::new()), "{}");
}

#[test]
fn method_headers_refuse_invalid_values() {
    let h = headers(&[("host", Some("localhost")), ("x-bin", None), ("x-two", None)]);
    match method_headers_json(&h) {
        Err(RequestError::InvalidHeaderValue { detail }) => assert_eq!(detail, "bad value of x-bin"),
        _ => panic!("a header value is not visible ASCII"),
    }
    let h = headers(&[("host", Some("localhost"))]);
    assert_eq!(method_headers_json(&h).unwrap(), "{\"host\": \"localhost\"}");
}

#[test]
fn fetch_script_fills_every_placeholder() {
    let h = headers(&[("host", Some("example.com"))]);
    let plan = fetch_request_script(
        FETCH_TEMPLATE,
        "{}",
        "http://inv",
        "counter",
        "GET",
        Some("example.com".to_string()),
        "/a/b",
        &h,
    )
    .unwrap();
    assert_eq!(
        plan.script,
        "env={};inv=http://inv;uri=\"http://example.com/a/b\";id=\"counter\";m=GET;h={\"host\": \"example.com\"}"
    );
    assert_eq!(plan.classes, ClassesSource::Configured);
}

#[test]
fn fetch_script_for_inspection_uses_inspection_classes() {
    let plan = fetch_request_script(
        "$ID",
        "{}",
        "",
        "inspection",
        "GET",
        Some("h".to_string()),
        "/",
        &Vec::new(),
    )
    .unwrap();
    assert_eq!(plan.script, "\"inspection\"");
    assert_eq!(plan.classes, ClassesSource::Inspection);
}

#[test]
fn fetch_script_needs_host() {
    let r = fetch_request_script(FETCH_TEMPLATE, "{}", "", "x", "GET", None, "/", &Vec::new());
    assert!(matches!(r, Err(RequestError::HostHeaderRequired)));
}

#[test]
fn method_parts_and_script() {
    let h = headers(&[("host", Some("example.com"))]);
    let parts =
        method_request_parts("counter", "increment", Some("example.com".to_string()), "/p", &h)
            .unwrap();
    assert_eq!(parts.id_json, "\"counter\"");
    assert_eq!(parts.method_json, "\"increment\"");
    assert_eq!(parts.uri_json, "\"https://example.com/p\"");
    assert_eq!(parts.headers_json, "{\"host\": \"example.com\"}");
    let plan = method_request_script(METHOD_TEMPLATE, RUN_TEMPLATE, "{}", "inv", &parts, "[1,\"a\"]", None)
        .unwrap();
    assert_eq!(
        plan.script,
        "env={} uri=\"https://example.com/p\" h={\"host\": \"example.com\"} inv=inv id=\"counter\" m=\"increment\" p=\"[1,\\\"a\\\"]\""
    );
    assert_eq!(plan.classes, ClassesSource::Configured);
}

#[test]
fn method_parts_errors() {
    let h = headers(&[("x", None)]);
    assert!(matches!(
        method_request_parts("c", "m", Some("h".to_string()), "/", &h),
        Err(RequestError::InvalidHeaderValue { .. })
    ));
}

#[test]
fn inspection_run_uses_first_parameter() {
    let parts = method_request_parts("inspection", "run", Some("h".to_string()), "/", &Vec::new()).unwrap();
    let plan = method_request_script(
        METHOD_TEMPLATE,
        RUN_TEMPLATE,
        "{\"A\":\"1\"}",
        "inv",
        &parts,
        "[\"x\"]",
        Some("getRoot('a')".to_string()),
    )
    .unwrap();
    assert_eq!(plan.script, "run({\"A\":\"1\"}, getRoot('a'), inv)");
    assert_eq!(plan.classes, ClassesSource::Configured);
    let r = method_request_script(METHOD_TEMPLATE, RUN_TEMPLATE, "{}", "inv", &parts, "[]", None);
    assert!(matches!(r, Err(RequestError::NoRunScript)));
}

#[test]
fn other_inspection_methods_use_inspection_classes() {
    let parts = method_request_parts("inspection", "list", Some("h".to_string()), "/", &Vec::new()).unwrap();
    let plan = method_request_script("$METHOD", RUN_TEMPLATE, "{}", "inv", &parts, "[]", None).unwrap();
    assert_eq!(plan.script, "\"list\"");
    assert_eq!(plan.classes, ClassesSource::Inspection);
}

#[test]
fn initialize_script_inserts_environment() {
    assert_eq!(
        initialize_script("const env = env_string; use(env_string);", "{\"K\":\"V\"}"),
        "const env = {\"K\":\"V\"}; use({\"K\":\"V\"});"
    );
}

#[test]
fn refused_requests_are_answered_with_an_error_body() {
    assert_eq!(
        error_response(&RequestError::HostHeaderRequired.message()),
        "{\"error\":{\"message\":\"Host header is required\"}}"
    );
    assert_eq!(RequestError::NoRunScript.message(), "No run script provided");
    assert_eq!(
        RequestError::InvalidHeaderValue { detail: "why".to_string() }.message(),
        "Invalid header value: why"
    );
    assert_eq!(error_response("a \"b\""), "{\"error\":{\"message\":\"a \\\"b\\\"\"}}");
}

#[test]
fn fetch_answers_follow_the_script_result() {
    let ok = fetch_response(Some(ScriptResponseResult::Response {
        response: ResponseData {
            bytes: b"Hello, World!".to_vec(),
            headers: vec![("content-type".to_string(), "text/plain".to_string())],
        },
    }));
    assert_eq!(ok.status, 200);
    assert_eq!(ok.headers, vec![("content-type".to_string(), "text/plain".to_string())]);
    assert_eq!(ok.body, b"Hello, World!".to_vec());

    let failed = fetch_response(Some(ScriptResponseResult::Error {
        error: ErrorData { message: "boom".to_string(), stack: "at x".to_string() },
    }));
    assert_eq!(failed.status, 500);
    assert!(failed.headers.is_empty());
    assert_eq!(failed.body, b"boom".to_vec());

    let unreadable = fetch_response(None);
    assert_eq!(unreadable.status, 500);
    assert_eq!(unreadable.body, b"Unknown error executing script".to_vec());
}

#[test]
fn method_answers_are_json() {
    assert_eq!(method_response("{ \"result\" : 1 }"), "{\"result\":1}");
    assert_eq!(method_response("not json"), "{\"error\":{\"message\":\"Error executing script\"}}");
    assert_eq!(method_answer(Some("[1]".to_string())), "[1]");
    assert_eq!(method_answer(None), "{\"error\":{\"message\":\"Error executing script\"}}");
}

#[test]
fn method_call_without_host_is_answered() {
    let parts = method_request_parts("counter", "increment", None, "/cloudstate/instances/counter/increment", &Vec::new())
        .unwrap();
    assert_eq!(parts.uri_json, "\"https:///cloudstate/instances/counter/increment\"");
    assert_eq!(parts.headers_json, "{}");
    let plan = method_request_script(METHOD_TEMPLATE, RUN_TEMPLATE, "{}", "inv", &parts, "[]", None).unwrap();
    assert_eq!(plan.classes, ClassesSource::Configured);
}

#[test]
fn runner_errors_are_answered() {
    let parts = method_request_parts("counter", "increment", Some("h".to_string()), "/", &Vec::new()).unwrap();
    assert_eq!(
        runner_error_response(&parts, "boom"),
        "{\"error\":{\"message\":\"Error running script: boom\"}}"
    );
    let run = method_request_parts("inspection", "run", Some("h".to_string()), "/", &Vec::new()).unwrap();
    assert_eq!(
        runner_error_response(&run, "boom"),
        "{\"error\":{\"message\":\"Error running inspection script: boom\"}}"
    );
}

#[test]
fn refused_fetch_and_method_answers() {
    let a = cloudstate::request::fetch_refusal(&RequestError::HostHeaderRequired);
    assert_eq!(a.status, 200);
    assert!(a.headers.is_empty());
    assert_eq!(a.body, b"{\"error\":{\"message\":\"Host header is required\"}}".to_vec());
    let m = cloudstate::request::method_http_answer("{\"result\":1}");
    assert_eq!(m.status, 200);
    assert_eq!(m.headers, vec![("content-type".to_string(), "application/json".to_string())]);
    assert_eq!(m.body, b"{\"result\":1}".to_vec());
    assert_eq!(
        cloudstate::request::params_error_response("missing field `params`"),
        "{\"error\":{\"message\":\"Error extracting params: missing field `params`\"}}"
    );
}
