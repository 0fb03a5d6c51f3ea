//! How the server turns an HTTP request for an instance into the script that
//! runs it: every value is quoted as a JSON string and put into a script
//! template in place of its placeholder.

use vstd::prelude::*;

verus! {

/// The hexadecimal digit of a value below sixteen, in lower case.
pub open spec fn hex_digit(n: int) -> char {
    if n < 10 {
        (('0' as int) + n) as char
    } else {
        (('a' as int) + n - 10) as char
    }
}

/// How a JSON string writes one character.
pub open spec fn json_escape_char(c: char) -> Seq<char> {
    if c == '"' {
        seq!['\\', '"']
    } else if c == '\\' {
        seq!['\\', '\\']
    } else if c == '\u{8}' {
        seq!['\\', 'b']
    } else if c == '\t' {
        seq!['\\', 't']
    } else if c == '\n' {
        seq!['\\', 'n']
    } else if c == '\u{c}' {
        seq!['\\', 'f']
    } else if c == '\r' {
        seq!['\\', 'r']
    } else if (c as int) < 0x20 {
        seq!['\\', 'u', '0', '0', hex_digit((c as int) / 16), hex_digit((c as int) % 16)]
    } else {
        seq![c]
    }
}

/// The characters of a JSON string, without its quotes.
pub open spec fn json_escape(s: Seq<char>) -> Seq<char>
    decreases s.len(),
{
    if s.len() == 0 {
        Seq::empty()
    } else {
        json_escape(s.drop_last()) + json_escape_char(s.last())
    }
}

/// `s` written as a JSON string.
pub open spec fn json_quote(s: Seq<char>) -> Seq<char> {
    seq!['"'] + json_escape(s) + seq!['"']
}

/// `s` with every occurrence of `from`, taken from the left without overlap,
/// replaced by `to`.
pub open spec fn replace_all(s: Seq<char>, from: Seq<char>, to: Seq<char>) -> Seq<char>
    decreases s.len(),
{
    if from.len() == 0 || s.len() < from.len() {
        s
    } else if s.take(from.len() as int) == from {
        to + replace_all(s.skip(from.len() as int), from, to)
    } else {
        seq![s[0]] + replace_all(s.skip(1), from, to)
    }
}

/// `serde_json::to_string` on a string: the string written as a JSON string.
/// Serializing a string into memory does not fail.
#[verifier::external_body]
fn serde_json_quote(s: &str) -> (r: Option<String>)
    ensures
        r is Some,
        r.unwrap()@ == json_quote(s@),
{
    serde_json::to_string(s).ok()
}

/// `str::replace` of std: every occurrence of `from`, from the left and
/// without overlap, replaced by `to`.
#[verifier::external_body]
fn str_replace(s: &str, from: &str, to: &str) -> (r: String)
    requires
        from@.len() > 0,
    ensures
        r@ == replace_all(s@, from@, to@),
{
    s.replace(from, to)
}

/// `s` written as a JSON string.
pub fn json_string(s: &str) -> (r: String)
    ensures
        r@ == json_quote(s@),
{
    match serde_json_quote(s) {
        Some(q) => q,
        None => String::new(),
    }
}

/// Why a request cannot be turned into a script.
#[derive(Debug)]
pub enum RequestError {
    /// A fetch request has no `Host` header, or its value is not visible ASCII.
    HostHeaderRequired,
    /// A header's value is not visible ASCII; `detail` says why it could not
    /// be read.
    InvalidHeaderValue { detail: String },
    /// An inspection run names no script to run.
    NoRunScript,
}

impl RequestError {
    /// The message that the server answers the request with.
    pub open spec fn message_spec(&self) -> Seq<char> {
        match self {
            RequestError::HostHeaderRequired => "Host header is required"@,
            RequestError::InvalidHeaderValue { detail } => "Invalid header value: "@ + detail@,
            RequestError::NoRunScript => "No run script provided"@,
        }
    }

    /// The message that the server answers the request with.
    pub fn message(&self) -> (r: String)
        ensures
            r@ == self.message_spec(),
            r@ == match self {
                RequestError::HostHeaderRequired => "Host header is required"@,
                RequestError::InvalidHeaderValue { detail } => "Invalid header value: "@ + detail@,
                RequestError::NoRunScript => "No run script provided"@,
            },
    {
        match self {
            RequestError::HostHeaderRequired => String::from_str("Host header is required"),
            RequestError::InvalidHeaderValue { detail } => {
                let mut m = String::from_str("Invalid header value: ");
                m.append(detail.as_str());
                m
            },
            RequestError::NoRunScript => String::from_str("No run script provided"),
        }
    }
}

/// The JSON body of an error answer: an object whose `error` holds the
/// message.
pub open spec fn error_body(message: Seq<char>) -> Seq<char> {
    "{\"error\":{\"message\":"@ + json_quote(message) + "}}"@
}

/// The body that answers a refused request: `{"error":{"message":...}}`.
pub fn error_response(message: &str) -> (r: String)
    ensures
        r@ == error_body(message@),
{
    let mut r = String::from_str("{\"error\":{\"message\":");
    let quoted = json_string(message);
    r.append(quoted.as_str());
    r.append("}}");
    r
}

/// Which classes a script runs with.
#[derive(PartialEq, Eq, Structural, Clone, Copy, Debug)]
pub enum ClassesSource {
    /// The classes that the server was started with.
    Configured,
    /// The classes of the inspection instance.
    Inspection,
}

/// A script to run and the classes to run it with.
pub struct ScriptPlan {
    pub script: String,
    pub classes: ClassesSource,
}

/// One header entry of a JSON object: `"name": "value"`.
pub open spec fn header_entry(name: Seq<char>, value: Seq<char>) -> Seq<char> {
    json_quote(name) + seq![':', ' '] + json_quote(value)
}

/// The entries joined by `, `.
pub open spec fn join_entries(entries: Seq<Seq<char>>) -> Seq<char>
    decreases entries.len(),
{
    if entries.len() == 0 {
        Seq::empty()
    } else if entries.len() == 1 {
        entries[0]
    } else {
        join_entries(entries.drop_last()) + seq![',', ' '] + entries.last()
    }
}

/// The value of a header as the script sees it: a value that is not visible
/// ASCII reads as empty.
pub open spec fn header_value_or_empty(value: Option<Seq<char>>) -> Seq<char> {
    match value {
        Some(v) => v,
        None => Seq::empty(),
    }
}

/// The headers by view: each name, and its value when it is visible ASCII.
pub open spec fn header_views(headers: Seq<(String, Result<String, String>)>) -> Seq<
    (Seq<char>, Option<Seq<char>>),
> {
    headers.map_values(
        |h: (String, Result<String, String>)|
            (
                h.0@,
                match h.1 {
                    Ok(v) => Some(v@),
                    Err(_) => None,
                },
            ),
    )
}

/// Why the first header whose value is not visible ASCII could not be read.
pub open spec fn first_invalid_detail(headers: Seq<(String, Result<String, String>)>) -> Seq<char>
    decreases headers.len(),
{
    if headers.len() == 0 {
        Seq::empty()
    } else {
        match headers[0].1 {
            Err(d) => d@,
            Ok(_) => first_invalid_detail(headers.drop_first()),
        }
    }
}

/// The headers as the entries of a JSON object, in request order.
pub open spec fn header_entries(headers: Seq<(Seq<char>, Option<Seq<char>>)>) -> Seq<Seq<char>> {
    headers.map_values(|h: (Seq<char>, Option<Seq<char>>)| header_entry(h.0, header_value_or_empty(h.1)))
}

/// The headers as a JSON object.
pub open spec fn headers_object(headers: Seq<(Seq<char>, Option<Seq<char>>)>) -> Seq<char> {
    seq!['{'] + join_entries(header_entries(headers)) + seq!['}']
}

/// The headers of a request as a JSON object, each name and value a JSON
/// string; a value that is not visible ASCII is written as an empty string.
pub fn headers_json(headers: &Vec<(String, Result<String, String>)>) -> (r: String)
    ensures
        r@ == headers_object(header_views(headers@)),
{
    let ghost hv = header_views(headers@);
    let ghost entries = header_entries(hv);
    let mut joined = String::new();
    let comma = ", ";
    let colon = ": ";
    proof {
        reveal_strlit(", ");
        reveal_strlit(": ");
    }
    for i in 0..headers.len()
        invariant
            hv == header_views(headers@),
            entries == header_entries(hv),
            hv.len() == headers@.len(),
            entries.len() == headers@.len(),
            comma@ == seq![',', ' '],
            colon@ == seq![':', ' '],
            joined@ == join_entries(entries.take(i as int)),
    {
        let name = json_string(headers[i].0.as_str());
        let value = match &headers[i].1 {
            Ok(v) => json_string(v.as_str()),
            Err(_) => json_string(""),
        };
        proof {
            reveal_strlit("");
            assert(hv[i as int] == (headers@[i as int].0@, match headers@[i as int].1 {
                Ok(v) => Some(v@),
                Err(_) => None,
            }));
            assert(entries[i as int] == header_entry(hv[i as int].0, header_value_or_empty(
                hv[i as int].1,
            )));
        }
        assert(entries.take(i + 1).drop_last() =~= entries.take(i as int));
        if i > 0 {
            joined.append(comma);
        }
        joined.append(name.as_str());
        joined.append(colon);
        joined.append(value.as_str());
        assert(joined@ =~= join_entries(entries.take(i + 1)));
    }
    assert(entries.take(headers.len() as int) =~= entries);
    let mut r = String::from_str("{");
    r.append(joined.as_str());
    r.append("}");
    proof {
        reveal_strlit("{");
        reveal_strlit("}");
    }
    assert(r@ =~= headers_object(hv));
    r
}

/// Every header value is visible ASCII.
pub open spec fn header_values_valid(headers: Seq<(Seq<char>, Option<Seq<char>>)>) -> bool {
    forall|i: int| 0 <= i < headers.len() ==> (#[trigger] headers[i]).1 is Some
}

/// The headers of a method call as a JSON object, or the error for the first
/// header value that is not visible ASCII.
pub fn method_headers_json(headers: &Vec<(String, Result<String, String>)>) -> (r: Result<
    String,
    RequestError,
>)
    ensures
        header_values_valid(header_views(headers@)) ==> (r matches Ok(s) && s@ == headers_object(
            header_views(headers@),
        )),
        !header_values_valid(header_views(headers@)) ==> (r matches Err(
            RequestError::InvalidHeaderValue { detail },
        ) && detail@ == first_invalid_detail(headers@)),
{
    let ghost hv = header_views(headers@);
    assert(headers@.skip(0) =~= headers@);
    for i in 0..headers.len()
        invariant
            hv == header_views(headers@),
            hv.len() == headers@.len(),
            forall|j: int| 0 <= j < i ==> (#[trigger] hv[j]).1 is Some,
            first_invalid_detail(headers@) == first_invalid_detail(headers@.skip(i as int)),
    {
        assert(hv[i as int].1 is Some <==> headers@[i as int].1 is Ok);
        assert(headers@.skip(i as int)[0] == headers@[i as int]);
        assert(headers@.skip(i as int).drop_first() =~= headers@.skip(i + 1));
        match &headers[i].1 {
            Ok(_) => {},
            Err(detail) => {
                return Err(RequestError::InvalidHeaderValue { detail: detail.clone() });
            },
        }
    }
    Ok(headers_json(headers))
}

/// The script for a request to an instance: the fetch template with each
/// placeholder replaced, run with the inspection classes when the instance is
/// `inspection`.
pub open spec fn fetch_script(
    template: Seq<char>,
    env_json: Seq<char>,
    invalidate_endpoint: Seq<char>,
    uri_json: Seq<char>,
    id_json: Seq<char>,
    http_method: Seq<char>,
    headers: Seq<char>,
) -> Seq<char> {
    replace_all(
        replace_all(
            replace_all(
                replace_all(
                    replace_all(
                        replace_all(template, "$ENV_STRING"@, env_json),
                        "$INVALIDATE_ENDPOINT"@,
                        invalidate_endpoint,
                    ),
                    "$URI"@,
                    uri_json,
                ),
                "$ID"@,
                id_json,
            ),
            "$HTTP_METHOD"@,
            http_method,
        ),
        "$HEADERS"@,
        headers,
    )
}

/// The script that answers a request to the instance `id` at `host` and
/// `path`, or the error for a request without a usable `Host` header.
pub fn fetch_request_script(
    template: &str,
    env_json: &str,
    invalidate_endpoint: &str,
    id: &str,
    http_method: &str,
    host: Option<String>,
    path: &str,
    headers: &Vec<(String, Result<String, String>)>,
) -> (r: Result<ScriptPlan, RequestError>)
    ensures
        match host {
            None => r matches Err(RequestError::HostHeaderRequired),
            Some(h) => (r matches Ok(plan) && plan.script@ == fetch_script(
                template@,
                env_json@,
                invalidate_endpoint@,
                json_quote("http://"@ + h@ + path@),
                json_quote(id@),
                http_method@,
                headers_object(header_views(headers@)),
            ) && (plan.classes == ClassesSource::Inspection <==> json_quote(id@)
                == "\"inspection\""@)),
        },
{
    let id_json = json_string(id);
    let host = match host {
        Some(h) => h,
        None => {
            return Err(RequestError::HostHeaderRequired);
        },
    };
    let mut uri = String::from_str("http://");
    uri.append(host.as_str());
    uri.append(path);
    let uri_json = json_string(uri.as_str());
    let headers = headers_json(headers);
    proof {
        reveal_strlit("$ENV_STRING");
        reveal_strlit("$INVALIDATE_ENDPOINT");
        reveal_strlit("$URI");
        reveal_strlit("$ID");
        reveal_strlit("$HTTP_METHOD");
        reveal_strlit("$HEADERS");
    }
    let s = str_replace(template, "$ENV_STRING", env_json);
    let s = str_replace(s.as_str(), "$INVALIDATE_ENDPOINT", invalidate_endpoint);
    let s = str_replace(s.as_str(), "$URI", uri_json.as_str());
    let s = str_replace(s.as_str(), "$ID", id_json.as_str());
    let s = str_replace(s.as_str(), "$HTTP_METHOD", http_method);
    let script = str_replace(s.as_str(), "$HEADERS", headers.as_str());
    let inspection = String::from_str("\"inspection\"");
    let classes = if id_json == inspection {
        ClassesSource::Inspection
    } else {
        ClassesSource::Configured
    };
    Ok(ScriptPlan { script, classes })
}

/// What a method call puts into its script besides its parameters.
pub struct MethodRequestParts {
    pub id_json: String,
    pub method_json: String,
    pub uri_json: String,
    pub headers_json: String,
}

/// The host that a method call's URI names: the `Host` header, or nothing for
/// a call without a usable one.
pub open spec fn host_or_empty(host: Option<String>) -> Seq<char> {
    match host {
        Some(h) => h@,
        None => Seq::empty(),
    }
}

/// The id, method, URI and headers of a method call, each written for the
/// script, or the error for the first header value that is not visible ASCII.
/// A call without a usable `Host` header is answered too: its URI names no
/// host.
pub fn method_request_parts(
    id: &str,
    method: &str,
    host: Option<String>,
    path: &str,
    headers: &Vec<(String, Result<String, String>)>,
) -> (r: Result<MethodRequestParts, RequestError>)
    ensures
        if header_values_valid(header_views(headers@)) {
            r matches Ok(p) && p.id_json@ == json_quote(id@) && p.method_json@ == json_quote(method@)
                && p.uri_json@ == json_quote("https://"@ + host_or_empty(host) + path@)
                && p.headers_json@ == headers_object(header_views(headers@))
        } else {
            r matches Err(RequestError::InvalidHeaderValue { detail }) && detail@
                == first_invalid_detail(headers@)
        },
{
    let id_json = json_string(id);
    let method_json = json_string(method);
    let host = match host {
        Some(h) => h,
        None => String::new(),
    };
    let mut uri = String::from_str("https://");
    uri.append(host.as_str());
    uri.append(path);
    let uri_json = json_string(uri.as_str());
    match method_headers_json(headers) {
        Ok(headers_json) => Ok(MethodRequestParts { id_json, method_json, uri_json, headers_json }),
        Err(e) => Err(e),
    }
}

/// The script for a method call: the method template with each placeholder
/// replaced.
pub open spec fn method_script(
    template: Seq<char>,
    env_json: Seq<char>,
    uri_json: Seq<char>,
    headers: Seq<char>,
    invalidate_endpoint: Seq<char>,
    id_json: Seq<char>,
    method_json: Seq<char>,
    params_json: Seq<char>,
) -> Seq<char> {
    replace_all(
        replace_all(
            replace_all(
                replace_all(
                    replace_all(
                        replace_all(
                            replace_all(template, "$ENV_STRING"@, env_json),
                            "$URI"@,
                            uri_json,
                        ),
                        "$HEADERS"@,
                        headers,
                    ),
                    "$INVALIDATE_ENDPOINT"@,
                    invalidate_endpoint,
                ),
                "$ID"@,
                id_json,
            ),
            "$METHOD"@,
            method_json,
        ),
        "$PARAMS"@,
        params_json,
    )
}

/// The script for an inspection run: the inspection template with its
/// placeholders replaced by the environment, the script to run and the
/// invalidation endpoint.
pub open spec fn inspection_run_script(
    template: Seq<char>,
    env_json: Seq<char>,
    run_script: Seq<char>,
    invalidate_endpoint: Seq<char>,
) -> Seq<char> {
    replace_all(
        replace_all(replace_all(template, "env_string"@, env_json), "run_script"@, run_script),
        "invalidate_endpoint"@,
        invalidate_endpoint,
    )
}

/// The script that answers a method call, with the classes to run it with.
///
/// `params_list_json` is the call's parameter list as JSON text, and
/// `first_param` the text of the first parameter, if there is one. A call of
/// the method `run` on the instance `inspection` runs its first parameter
/// through the inspection template with the configured classes, and fails
/// without one. Any other call on `inspection` runs with the inspection
/// classes.
pub fn method_request_script(
    template: &str,
    inspection_run_template: &str,
    env_json: &str,
    invalidate_endpoint: &str,
    parts: &MethodRequestParts,
    params_list_json: &str,
    first_param: Option<String>,
) -> (r: Result<ScriptPlan, RequestError>)
    ensures
        ({
            let is_inspection = parts.id_json@ == "\"inspection\""@;
            let is_run = parts.method_json@ == "\"run\""@;
            if is_inspection && is_run {
                match first_param {
                    None => r matches Err(RequestError::NoRunScript),
                    Some(p) => r matches Ok(plan) && plan.script@ == inspection_run_script(
                        inspection_run_template@,
                        env_json@,
                        p@,
                        invalidate_endpoint@,
                    ) && plan.classes == ClassesSource::Configured,
                }
            } else {
                r matches Ok(plan) && plan.script@ == method_script(
                    template@,
                    env_json@,
                    parts.uri_json@,
                    parts.headers_json@,
                    invalidate_endpoint@,
                    parts.id_json@,
                    parts.method_json@,
                    json_quote(params_list_json@),
                ) && (plan.classes == ClassesSource::Inspection <==> is_inspection)
            }
        }),
{
    let params_json = json_string(params_list_json);
    proof {
        reveal_strlit("$ENV_STRING");
        reveal_strlit("$URI");
        reveal_strlit("$HEADERS");
        reveal_strlit("$INVALIDATE_ENDPOINT");
        reveal_strlit("$ID");
        reveal_strlit("$METHOD");
        reveal_strlit("$PARAMS");
        reveal_strlit("env_string");
        reveal_strlit("run_script");
        reveal_strlit("invalidate_endpoint");
    }
    let s = str_replace(template, "$ENV_STRING", env_json);
    let s = str_replace(s.as_str(), "$URI", parts.uri_json.as_str());
    let s = str_replace(s.as_str(), "$HEADERS", parts.headers_json.as_str());
    let s = str_replace(s.as_str(), "$INVALIDATE_ENDPOINT", invalidate_endpoint);
    let s = str_replace(s.as_str(), "$ID", parts.id_json.as_str());
    let s = str_replace(s.as_str(), "$METHOD", parts.method_json.as_str());
    let base_script = str_replace(s.as_str(), "$PARAMS", params_json.as_str());
    let inspection = String::from_str("\"inspection\"");
    let run = String::from_str("\"run\"");
    if parts.id_json == inspection && parts.method_json == run {
        match first_param {
            None => Err(RequestError::NoRunScript),
            Some(p) => {
                let s = str_replace(inspection_run_template, "env_string", env_json);
                let s = str_replace(s.as_str(), "run_script", p.as_str());
                let script = str_replace(s.as_str(), "invalidate_endpoint", invalidate_endpoint);
                Ok(ScriptPlan { script, classes: ClassesSource::Configured })
            },
        }
    } else {
        let classes = if parts.id_json == inspection {
            ClassesSource::Inspection
        } else {
            ClassesSource::Configured
        };
        Ok(ScriptPlan { script: base_script, classes })
    }
}

/// The script that a server runs once when it starts: the initialisation
/// template with the environment, as JSON text, in place of `env_string`.
pub fn initialize_script(template: &str, env_json: &str) -> (r: String)
    ensures
        r@ == replace_all(template@, "env_string"@, env_json@),
{
    proof {
        reveal_strlit("env_string");
    }
    str_replace(template, "env_string", env_json)
}

/// What a fetch script leaves as its result when it answers: the body's bytes
/// and the headers.
pub struct ResponseData {
    pub bytes: Vec<u8>,
    pub headers: Vec<(String, String)>,
}

/// What a script leaves as its result when it fails.
pub struct ErrorData {
    pub message: String,
    pub stack: String,
}

/// The result that a fetch script leaves: an answer or an error.
pub enum ScriptResponseResult {
    Response { response: ResponseData },
    Error { error: ErrorData },
}

/// An HTTP answer: its status, its headers in order and its body.
pub struct HttpAnswer {
    pub status: u16,
    pub headers: Vec<(String, String)>,
    pub body: Vec<u8>,
}

/// The message of a fetch whose script left no result that could be read.
pub open spec fn unknown_error_message() -> Seq<char> {
    "Unknown error executing script"@
}

/// A character that an HTTP field name may hold: a `tchar` of RFC 9110.
pub open spec fn is_token_char(c: char) -> bool {
    ('a' <= c <= 'z') || ('A' <= c <= 'Z') || ('0' <= c <= '9') || c == '!' || c == '#' || c
        == '$' || c == '%' || c == '&' || c == '\'' || c == '*' || c == '+' || c == '-' || c == '.'
        || c == '^' || c == '_' || c == '`' || c == '|' || c == '~'
}

/// Header fields that an HTTP answer can carry (RFC 9110): each name is a
/// non-empty token, and each value holds no control character but the tab.
pub open spec fn header_fields_valid(headers: Seq<(String, String)>) -> bool {
    forall|i: int|
        0 <= i < headers.len() ==> {
            let name = (#[trigger] headers[i]).0@;
            let value = headers[i].1@;
            &&& name.len() > 0
            &&& forall|j: int| 0 <= j < name.len() ==> is_token_char(#[trigger] name[j])
            &&& forall|j: int|
                0 <= j < value.len() ==> (#[trigger] value[j] == '\t' || (' ' <= value[j]
                    && value[j] != '\u{7f}'))
        }
}

/// How the server answers a fetch from the result its script left, if that
/// result could be read: an answer, whose headers must be valid fields, is
/// sent with its headers and bytes and
/// status 200; an error, or a result that could not be read, as status 500
/// with the error's message as the body.
pub fn fetch_response(result: Option<ScriptResponseResult>) -> (r: HttpAnswer)
    requires
        result matches Some(ScriptResponseResult::Response { response }) ==> header_fields_valid(
            response.headers@,
        ),
    ensures
        match result {
            Some(ScriptResponseResult::Response { response }) => r.status == 200 && r.headers@
                == response.headers@ && r.body@ == response.bytes@,
            Some(ScriptResponseResult::Error { error }) => r.status == 500 && r.headers@.len() == 0
                && r.body@ == vstd::utf8::encode_utf8(error.message@),
            None => r.status == 500 && r.headers@.len() == 0 && r.body@ == vstd::utf8::encode_utf8(
                unknown_error_message(),
            ),
        },
{
    let message = match result {
        Some(ScriptResponseResult::Response { response }) => {
            return HttpAnswer { status: 200, headers: response.headers, body: response.bytes };
        },
        Some(ScriptResponseResult::Error { error }) => error.message,
        None => String::from_str("Unknown error executing script"),
    };
    let body = vstd::slice::slice_to_vec(message.as_str().as_bytes());
    HttpAnswer { status: 500, headers: Vec::new(), body }
}

/// What `serde_json` makes of a text read as a JSON value and written back:
/// the value's compact JSON text, or nothing when the text is not JSON.
pub uninterp spec fn json_normalized(text: Seq<char>) -> Option<Seq<char>>;

/// `serde_json::from_str` into a `serde_json::Value`, written back with
/// `to_string`: the compact JSON text of the value that the text holds, or
/// `None` when the text is not JSON. Which texts are JSON and how a value is
/// written back is left to the name [`json_normalized`].
#[verifier::external_body]
fn normalize_json(text: &str) -> (r: Option<String>)
    ensures
        match r {
            Some(t) => json_normalized(text@) == Some(t@),
            None => json_normalized(text@) is None,
        },
{
    match serde_json::from_str::<serde_json::Value>(text) {
        Ok(value) => Some(value.to_string()),
        Err(_) => None,
    }
}

/// The message of a method call whose script left a result that is not JSON.
pub open spec fn method_error_message() -> Seq<char> {
    "Error executing script"@
}

/// The body that answers a method call, given its script's result read as
/// JSON and written back: that text, or an error body when the result was not
/// JSON.
pub fn method_answer(normalized: Option<String>) -> (r: String)
    ensures
        match normalized {
            Some(t) => r@ == t@,
            None => r@ == error_body(method_error_message()),
        },
{
    match normalized {
        Some(t) => t,
        None => error_response("Error executing script"),
    }
}

/// The body that answers a method call whose script left the text `result`.
pub fn method_response(result: &str) -> (r: String)
    ensures
        match json_normalized(result@) {
            Some(t) => r@ == t,
            None => r@ == error_body(method_error_message()),
        },
{
    method_answer(normalize_json(result))
}

/// The message of a method call whose runner reported the error `error`: the
/// run of an inspection script and any other call say so differently.
pub open spec fn runner_error_message(inspection_run: bool, error: Seq<char>) -> Seq<char> {
    if inspection_run {
        "Error running inspection script: "@ + error
    } else {
        "Error running script: "@ + error
    }
}

/// The body that answers a method call whose runner reported the error
/// `error`. The call runs an inspection script when it is the method `run`
/// of the instance `inspection`.
pub fn runner_error_response(parts: &MethodRequestParts, error: &str) -> (r: String)
    ensures
        r@ == error_body(
            runner_error_message(
                parts.id_json@ == "\"inspection\""@ && parts.method_json@ == "\"run\""@,
                error@,
            ),
        ),
{
    let inspection = String::from_str("\"inspection\"");
    let run = String::from_str("\"run\"");
    let mut message = if parts.id_json == inspection && parts.method_json == run {
        String::from_str("Error running inspection script: ")
    } else {
        String::from_str("Error running script: ")
    };
    message.append(error);
    error_response(message.as_str())
}

/// The answer to a fetch that was refused before any script ran: status 200,
/// no headers, and the error body of its message.
pub fn fetch_refusal(error: &RequestError) -> (r: HttpAnswer)
    ensures
        r.status == 200,
        r.headers@.len() == 0,
        r.body@ == vstd::utf8::encode_utf8(error_body(error.message_spec())),
{
    let body = error_response(error.message().as_str());
    HttpAnswer { status: 200, headers: Vec::new(), body: vstd::slice::slice_to_vec(body.as_str().as_bytes()) }
}

/// The answer to a method call, whose body is the JSON text `body`: a method
/// call is always answered with status 200, errors too, as JSON.
pub fn method_http_answer(body: &str) -> (r: HttpAnswer)
    ensures
        r.status == 200,
        r.headers@.len() == 1,
        r.headers@[0].0@ == "content-type"@,
        r.headers@[0].1@ == "application/json"@,
        r.body@ == vstd::utf8::encode_utf8(body@),
{
    let mut headers: Vec<(String, String)> = Vec::new();
    headers.push((String::from_str("content-type"), String::from_str("application/json")));
    HttpAnswer { status: 200, headers, body: vstd::slice::slice_to_vec(body.as_bytes()) }
}

/// The body that answers a method call whose request body holds no list of
/// params, given the reason that reading it gave; no script runs then.
pub fn params_error_response(reason: &str) -> (r: String)
    ensures
        r@ == error_body("Error extracting params: "@ + reason@),
{
    let mut message = String::from_str("Error extracting params: ");
    message.append(reason);
    error_response(message.as_str())
}

} // verus!
