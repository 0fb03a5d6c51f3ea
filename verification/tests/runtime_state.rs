use cloudstate::js_spans::JavaScriptSpans;
use cloudstate::permissions::CloudstatePermissions;
use cloudstate::runner::{ServerInfo, SimpleCloudstateRunner};

#[test]
fn spans_pop_innermost_first() {
    let mut spans: JavaScriptSpans<&str> = JavaScriptSpans::new();
    spans.add_span("outer");
    spans.add_span("inner");
    assert_eq!(spans.pop_span(), "inner");
    spans.add_span("again");
    assert_eq!(spans.pop_span(), "again");
    assert_eq!(spans.pop_span(), "outer");
}

#[test]
fn permissions_allow_everything_but_hrtime() {
    let mut p = CloudstatePermissions::new();
    assert!(!p.allow_hrtime());
    assert!(p.check_net_url("https://example.com", "fetch").is_ok());
    assert!(p.check_net("example.com", Some(443), "connect").is_ok());
    assert_eq!(p.check_read("/tmp/a", "read").unwrap(), "/tmp/a");
    assert_eq!(p.check_write("/tmp/b", "write").unwrap(), "/tmp/b");
    assert_eq!(p.check_read_path(true, "/x".to_string(), "read").unwrap(), "/x");
    assert_eq!(p.check_write_path("/y".to_string(), "write").unwrap(), "/y");
}

#[test]
fn runner_and_server_info() {
    let _runner = SimpleCloudstateRunner::new();
    let info = ServerInfo { deployment_id: Some("dep".to_string()) };
    let copy = info.clone();
    assert_eq!(copy.deployment_id, Some("dep".to_string()));
}

use cloudstate::module_loader::{CloudstateModuleLoader, LoadAction};

fn source(a: LoadAction) -> Option<String> {
    match a {
        LoadAction::Respond(s) => Some(s),
        LoadAction::AwaitLibrary => None,
    }
}

#[test]
fn loader_gives_its_library_once() {
    let mut loader = CloudstateModuleLoader::new("export class A {}".to_string());
    assert_eq!(source(loader.load()), Some("export class A {}".to_string()));
    assert_eq!(source(loader.load()), Some(String::new()));
}

#[test]
fn async_loader_waits_then_serves_received_library() {
    let mut loader = CloudstateModuleLoader::new_async();
    assert_eq!(source(loader.load()), None);
    assert_eq!(loader.receive("lib".to_string()), "lib");
    assert_eq!(source(loader.load()), Some("lib".to_string()));
    assert_eq!(source(loader.load()), Some(String::new()));
}

#[test]
fn span_finish_op_leaves_innermost() {
    let mut spans: JavaScriptSpans<u32> = JavaScriptSpans::new();
    spans.add_span(1);
    spans.add_span(2);
    assert_eq!(cloudstate::js_spans::op_tracing_span_finish(&mut spans), 2);
    assert_eq!(cloudstate::js_spans::op_tracing_span_finish(&mut spans), 1);
}
